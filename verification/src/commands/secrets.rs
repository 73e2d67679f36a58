//! `secrets list`: the rows of the table it prints.
use vstd::prelude::*;
use vstd::string::*;
use crate::api::{Secret, RevealedSecret};

verus! {

/// What a masked row shows in place of the value: a fixed number of stars,
/// since the length of a secret is itself worth not leaking.
pub open spec fn mask_text() -> Seq<char> {
    "********"@
}

/// Why a secret is not set.
pub open spec fn empty_value_text(key: Seq<char>) -> Seq<char> {
    "refusing to set "@ + key + " to an empty value"@
}

/// Setting a secret asks for its value explicitly: an empty value is refused
/// rather than stored as an empty string nobody meant.
pub fn check_value(key: &str, value: &str) -> (r: Result<(), String>)
    ensures
        match r {
            Ok(()) => value@.len() > 0,
            Err(m) => value@.len() == 0 && m@ == empty_value_text(key@),
        },
{
    if value.unicode_len() == 0 {
        let mut m = String::from_str("refusing to set ");
        m.append(key);
        m.append(" to an empty value");
        Err(m)
    } else {
        Ok(())
    }
}

/// A row of the table: key, value shown, version.
pub struct SecretRow {
    pub key: String,
    pub value: String,
    pub version: i32,
}

/// The rows of a metadata listing: each value is masked.
pub fn masked_rows(secrets: &[Secret]) -> (r: Vec<SecretRow>)
    ensures
        r@.len() == secrets@.len(),
        forall|i: int|
            #![trigger r@[i]]
            #![trigger secrets@[i]]
            0 <= i < r@.len() ==> {
                &&& r@[i].key == secrets@[i].key
                &&& r@[i].value@ == mask_text()
                &&& r@[i].version == secrets@[i].version
            },
{
    let mut out: Vec<SecretRow> = Vec::new();
    let n = secrets.len();
    let mut i: usize = 0;
    while i < n
        invariant
            n == secrets@.len(),
            i <= n,
            out@.len() == i,
            forall|j: int|
                #![trigger out@[j]]
                #![trigger secrets@[j]]
                0 <= j < i ==> {
                    &&& out@[j].key == secrets@[j].key
                    &&& out@[j].value@ == mask_text()
                    &&& out@[j].version == secrets@[j].version
                },
        decreases n - i,
    {
        out.push(SecretRow {
            key: secrets[i].key.clone(),
            value: String::from_str("********"),
            version: secrets[i].version,
        });
        i = i + 1;
    }
    out
}

/// The rows of a revealing listing: each value is shown.
pub fn revealed_rows(secrets: &[RevealedSecret]) -> (r: Vec<SecretRow>)
    ensures
        r@.len() == secrets@.len(),
        forall|i: int|
            #![trigger r@[i]]
            #![trigger secrets@[i]]
            0 <= i < r@.len() ==> {
                &&& r@[i].key == secrets@[i].key
                &&& r@[i].value == secrets@[i].value
                &&& r@[i].version == secrets@[i].version
            },
{
    let mut out: Vec<SecretRow> = Vec::new();
    let n = secrets.len();
    let mut i: usize = 0;
    while i < n
        invariant
            n == secrets@.len(),
            i <= n,
            out@.len() == i,
            forall|j: int|
                #![trigger out@[j]]
                #![trigger secrets@[j]]
                0 <= j < i ==> {
                    &&& out@[j].key == secrets@[j].key
                    &&& out@[j].value == secrets@[j].value
                    &&& out@[j].version == secrets@[j].version
                },
        decreases n - i,
    {
        out.push(SecretRow {
            key: secrets[i].key.clone(),
            value: secrets[i].value.clone(),
            version: secrets[i].version,
        });
        i = i + 1;
    }
    out
}

/// The keys of the rows, in order.
pub fn row_keys(rows: &[SecretRow]) -> (r: Vec<String>)
    ensures
        r@.len() == rows@.len(),
        forall|i: int| #![trigger r@[i]] #![trigger rows@[i]] 0 <= i < r@.len() ==> r@[i] == rows@[i].key,
{
    let mut out: Vec<String> = Vec::new();
    let n = rows.len();
    let mut i: usize = 0;
    while i < n
        invariant
            n == rows@.len(),
            i <= n,
            out@.len() == i,
            forall|j: int| #![trigger out@[j]] #![trigger rows@[j]] 0 <= j < i ==> out@[j] == rows@[j].key,
        decreases n - i,
    {
        out.push(rows[i].key.clone());
        i = i + 1;
    }
    out
}

} // verus!
