//! Trade-good identifiers and catalogue metadata.

use vstd::prelude::*;
use vstd::string::StringSliceAdditionalSpecFns;

pub mod ids;

verus! {

/// Stable identifier of a trade good: its position in the goods catalogue.
#[derive(Copy, Clone, Eq, PartialEq, Structural, Hash, Debug)]
pub struct GoodId(pub u8);

/// Broad kind of a trade good.
#[derive(Copy, Clone, Debug, Eq, PartialEq, Structural)]
pub enum GoodCategory {
    /// Bulk agricultural commodity (sugar, tobacco, molasses).
    Staple,
    /// Higher-value processed export (rum).
    Cash,
    /// European-finished imports (textiles, metalware, tools).
    Manufactured,
    /// Specie / bullion.
    Currency,
    /// Naval stores (tar, pitch, masts, cordage).
    Naval,
    /// Food rations.
    Provision,
    /// Enslaved persons, tracked as a good for economic fidelity.
    Person,
}

/// Shelf life of a trade good.
#[derive(Copy, Clone, Debug, Eq, PartialEq, Structural)]
pub enum Perishability {
    /// Effectively unlimited shelf life.
    Indefinite,
    /// Months of storage before quality loss.
    Months(u8),
    /// Days of storage before spoilage.
    Days(u16),
}

/// `b` with ASCII capitals mapped to lower case.
pub open spec fn ascii_lower(b: u8) -> u8 {
    if 65 <= b <= 90 {
        (b + 32) as u8
    } else {
        b
    }
}

/// Two byte strings equal up to ASCII case.
pub open spec fn bytes_eq_ignore_ascii_case(a: Seq<u8>, b: Seq<u8>) -> bool {
    &&& a.len() == b.len()
    &&& forall|i: int| 0 <= i < a.len() ==> #[trigger] ascii_lower(a[i]) == ascii_lower(b[i])
}

/// Index of the first name in `names` that matches `name` up to ASCII case
/// (`str::eq_ignore_ascii_case`), if any.
pub open spec fn first_name_match(names: Seq<Seq<u8>>, name: Seq<u8>) -> Option<int> {
    if exists|i: int| 0 <= i < names.len() && bytes_eq_ignore_ascii_case(#[trigger] names[i], name) {
        let i = choose|i: int|
            0 <= i < names.len() && bytes_eq_ignore_ascii_case(#[trigger] names[i], name) && forall|j: int|
                0 <= j < i ==> !bytes_eq_ignore_ascii_case(#[trigger] names[j], name);
        Some(i)
    } else {
        None
    }
}

fn lower_byte(b: u8) -> (r: u8)
    ensures
        r == ascii_lower(b),
{
    if 65 <= b && b <= 90 {
        b + 32
    } else {
        b
    }
}

/// ASCII case-insensitive comparison of two strings.
pub fn str_eq_ignore_ascii_case(a: &str, b: &str) -> (r: bool)
    ensures
        r == bytes_eq_ignore_ascii_case(a.spec_bytes(), b.spec_bytes()),
{
    let x = a.as_bytes();
    let y = b.as_bytes();
    if x.len() != y.len() {
        return false;
    }
    let mut i: usize = 0;
    while i < x.len()
        invariant
            x@ == a.spec_bytes(),
            y@ == b.spec_bytes(),
            x@.len() == y@.len(),
            i <= x@.len(),
            forall|k: int| 0 <= k < i ==> #[trigger] ascii_lower(x@[k]) == ascii_lower(y@[k]),
        decreases x@.len() - i,
    {
        if lower_byte(x[i]) != lower_byte(y[i]) {
            return false;
        }
        i = i + 1;
    }
    true
}

/// Exact comparison of two strings.
pub fn str_eq(a: &str, b: &str) -> (r: bool)
    ensures
        r == (a@ == b@),
{
    let x = a.as_bytes();
    let y = b.as_bytes();
    proof {
        vstd::utf8::encode_utf8_decode_utf8(a@);
        vstd::utf8::encode_utf8_decode_utf8(b@);
    }
    if x.len() != y.len() {
        return false;
    }
    let mut i: usize = 0;
    while i < x.len()
        invariant
            x@ == a.spec_bytes(),
            y@ == b.spec_bytes(),
            x@.len() == y@.len(),
            i <= x@.len(),
            forall|k: int| 0 <= k < i ==> x@[k] == y@[k],
        decreases x@.len() - i,
    {
        if x[i] != y[i] {
            return false;
        }
        i = i + 1;
    }
    assert(x@ =~= y@);
    true
}

/// UTF-8 bytes of a string.
pub open spec fn utf8_of(s: String) -> Seq<u8> {
    vstd::utf8::encode_utf8(s@)
}

/// Position of the first catalogue name equal to `name` up to ASCII case
/// (the lookup behind `GoodsRegistry::by_name`).
pub fn position_by_name_ignore_case(names: &[String], name: &str) -> (r: Option<usize>)
    ensures
        r matches Some(i) ==> first_name_match(names@.map_values(|s: String| utf8_of(s)), name.spec_bytes())
            == Some(i as int),
        r is None ==> first_name_match(names@.map_values(|s: String| utf8_of(s)), name.spec_bytes()) is None,
{
    let ghost all = names@.map_values(|s: String| utf8_of(s));
    let mut i: usize = 0;
    while i < names.len()
        invariant
            i <= names@.len(),
            all == names@.map_values(|s: String| utf8_of(s)),
            forall|j: int| 0 <= j < i ==> !bytes_eq_ignore_ascii_case(#[trigger] all[j], name.spec_bytes()),
        decreases names@.len() - i,
    {
        if str_eq_ignore_ascii_case(names[i].as_str(), name) {
            assert(bytes_eq_ignore_ascii_case(all[i as int], name.spec_bytes()));
            return Some(i);
        }
        i = i + 1;
    }
    None
}

} // verus!
