//! Ids of git objects.

use vstd::prelude::*;

use crate::seqs::{lemma_position, lemma_position_is, position};

verus! {

/// The id of a git object: the twenty raw bytes of its SHA-1 name.
#[derive(Clone, Copy, Debug, Eq)]
pub struct Oid {
    pub bytes: [u8; 20],
}

impl PartialEq for Oid {
    fn eq(&self, other: &Self) -> (r: bool) {
        for i in 0..20usize
            invariant
                forall|j: int| 0 <= j < i ==> self.bytes@[j] == other.bytes@[j],
        {
            if self.bytes[i] != other.bytes[i] {
                return false;
            }
        }
        assert(self.bytes =~= other.bytes);
        true
    }
}

impl vstd::std_specs::cmp::PartialEqSpecImpl for Oid {
    open spec fn obeys_eq_spec() -> bool {
        true
    }

    open spec fn eq_spec(&self, other: &Self) -> bool {
        *self == *other
    }
}

/// The lower-case hexadecimal digit of value `n`.
pub open spec fn hex_digit(n: int) -> char {
    seq!['0', '1', '2', '3', '4', '5', '6', '7', '8', '9', 'a', 'b', 'c', 'd', 'e', 'f'][n]
}

/// Two lower-case hexadecimal digits for each byte, high digit first.
pub open spec fn hex_text(bytes: Seq<u8>) -> Seq<char> {
    Seq::new(
        2 * bytes.len(),
        |i: int|
            hex_digit(
                if i % 2 == 0 {
                    bytes[i / 2] as int / 16
                } else {
                    bytes[i / 2] as int % 16
                },
            ),
    )
}

/// `git2::Oid::from_bytes` followed by the `Display` text of the id. Twenty
/// bytes are always accepted, and the text is their lower-case hexadecimal form.
#[verifier::external_body]
fn git2_oid_text(bytes: &[u8; 20]) -> (r: String)
    ensures
        r@ == hex_text(bytes@),
{
    git2::Oid::from_bytes(bytes).unwrap().to_string()
}

impl Oid {
    /// The id as it is written in commit headers: forty hexadecimal digits.
    pub fn text(&self) -> (r: String)
        ensures
            r@ == hex_text(self.bytes@),
    {
        git2_oid_text(&self.bytes)
    }
}

/// Two ids with the same text are the same id.
pub proof fn law_text_identifies(a: Oid, b: Oid)
    requires
        hex_text(a.bytes@) == hex_text(b.bytes@),
    ensures
        a == b,
{
    assert forall|j: int| 0 <= j < 20 implies a.bytes@[j] == b.bytes@[j] by {
        let x = a.bytes@[j] as int;
        let y = b.bytes@[j] as int;
        assert(hex_text(a.bytes@)[2 * j] == hex_digit(x / 16));
        assert(hex_text(b.bytes@)[2 * j] == hex_digit(y / 16));
        assert(hex_text(a.bytes@)[2 * j + 1] == hex_digit(x % 16));
        assert(hex_text(b.bytes@)[2 * j + 1] == hex_digit(y % 16));
    }
    assert(a.bytes =~= b.bytes);
}

/// Finds `oid` among `ids`.
pub fn find_oid(ids: &Vec<Oid>, oid: Oid) -> (r: Option<usize>)
    ensures
        match r {
            Some(i) => i == position(ids@, oid) && i < ids.len(),
            None => position(ids@, oid) == ids.len(),
        },
        r is Some <==> ids@.contains(oid),
{
    proof {
        lemma_position(ids@, oid);
    }
    for i in 0..ids.len()
        invariant
            forall|j: int| 0 <= j < i ==> ids@[j] != oid,
    {
        if ids[i] == oid {
            proof {
                lemma_position_is(ids@, oid, i as int);
            }
            return Some(i);
        }
    }
    None
}

/// The text of an id has two digits for each byte, whose values make up the byte.
pub proof fn law_digits_of_the_text(bytes: Seq<u8>, k: int)
    requires
        0 <= k < bytes.len(),
    ensures
        hex_text(bytes).len() == 2 * bytes.len(),
        exists|high: int, low: int|
            {
                &&& 0 <= high < 16
                &&& 0 <= low < 16
                &&& bytes[k] == 16 * high + low
                &&& hex_text(bytes)[2 * k] == #[trigger] "0123456789abcdef"@[high]
                &&& hex_text(bytes)[2 * k + 1] == #[trigger] "0123456789abcdef"@[low]
            },
{
    reveal_strlit("0123456789abcdef");
    let high = bytes[k] as int / 16;
    let low = bytes[k] as int % 16;
    assert(hex_text(bytes)[2 * k] == hex_digit(high));
    assert(hex_text(bytes)[2 * k + 1] == hex_digit(low));
    assert(hex_digit(high) == "0123456789abcdef"@[high]);
    assert(hex_digit(low) == "0123456789abcdef"@[low]);
}

} // verus!
