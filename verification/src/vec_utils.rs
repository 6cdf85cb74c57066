//! Helpers over vectors: a uniformly random element pick, conversion of a
//! vector of `String`s to string slices, and longest-element queries.

use rand::Rng;
use vstd::prelude::*;

verus! {

/// Relies on `rand::thread_rng` and `rand::Rng::gen_range`: a uniformly
/// random value drawn from the half-open range below `bound`; `gen_range`
/// panics only on an empty range, which `bound > 0` rules out.
#[verifier::external_body]
fn random_index_below(bound: usize) -> (r: usize)
    requires
        bound > 0,
    ensures
        r < bound,
{
    rand::thread_rng().gen_range(0..bound)
}

/// Pick an element at random.  Return, in a tuple, the element along with
/// its index in the vector; an empty vector yields nothing.
pub fn vec_random_choice<T>(list: &Vec<T>) -> (r: Option<(&T, usize)>)
    ensures
        match r {
            None => list@.len() == 0,
            Some(p) => p.1 < list@.len() && *p.0 == list@[p.1 as int],
        },
{
    if list.len() == 0 {
        return None;
    }
    let index = random_index_below(list.len());
    Some((&list[index], index))
}

/// Converts a vector of Strings into a vector of `&str`s with the same
/// contents in the same order.
pub fn vec_string_to_str<'a>(list: &'a Vec<String>) -> (r: Vec<&'a str>)
    ensures
        r@.len() == list@.len(),
        forall|i: int| 0 <= i < list@.len() ==> r@[i]@ == #[trigger] list@[i]@,
{
    let mut uselist: Vec<&str> = Vec::new();
    let mut i: usize = 0;
    while i < list.len()
        invariant
            0 <= i <= list@.len(),
            uselist@.len() == i,
            forall|j: int| 0 <= j < i ==> uselist@[j]@ == #[trigger] list@[j]@,
        decreases list@.len() - i,
    {
        uselist.push(list[i].as_str());
        i = i + 1;
    }
    uselist
}

/// The length in bytes of a text's UTF-8 encoding; string lengths here are
/// byte lengths, as `str::len` reports them.
pub open spec fn byte_len(s: Seq<char>) -> nat {
    vstd::utf8::encode_utf8(s).len()
}

/// The byte length of a string slice.
fn str_byte_len(s: &str) -> (n: usize)
    ensures
        n == byte_len(s@),
{
    s.as_bytes().len()
}

/// In a vector of Strings, returns the longest element, judged by byte
/// length.  If more than one element has the longest length, the last of
/// those long elements is returned; an empty vector yields nothing.
pub fn vec_longest_str(v: &Vec<String>) -> (r: Option<&String>)
    ensures
        match r {
            None => v@.len() == 0,
            Some(s) => exists|j: int|
                0 <= j < v@.len() && *s == v@[j] && (forall|i: int|
                    0 <= i < v@.len() ==> byte_len(#[trigger] v@[i]@) <= byte_len(v@[j]@)) && (
                forall|i: int| j < i < v@.len() ==> byte_len(#[trigger] v@[i]@) < byte_len(v@[j]@)),
        },
{
    if v.len() == 0 {
        return None;
    }
    let mut best: usize = 0;
    let mut i: usize = 1;
    while i < v.len()
        invariant
            0 <= best < i <= v@.len(),
            forall|k: int| 0 <= k < i ==> byte_len(#[trigger] v@[k]@) <= byte_len(v@[best as int]@),
            forall|k: int| best < k < i ==> byte_len(#[trigger] v@[k]@) < byte_len(v@[best as int]@),
        decreases v@.len() - i,
    {
        if str_byte_len(v[i].as_str()) >= str_byte_len(v[best].as_str()) {
            best = i;
        }
        i = i + 1;
    }
    let r = Some(&v[best]);
    proof {
        let j = best as int;
        assert(*r.unwrap() == v@[j] && (forall|i: int|
            0 <= i < v@.len() ==> byte_len(#[trigger] v@[i]@) <= byte_len(v@[j]@)) && (forall|i: int|
            j < i < v@.len() ==> byte_len(#[trigger] v@[i]@) < byte_len(v@[j]@)));
    }
    r
}

/// Returns the length in bytes of the longest String in a String vector,
/// or zero when the vector is empty.
pub fn vec_longest_str_len(stringvec: &Vec<String>) -> (longest: usize)
    ensures
        forall|i: int| 0 <= i < stringvec@.len() ==> byte_len(#[trigger] stringvec@[i]@) <= longest,
        stringvec@.len() == 0 ==> longest == 0,
        stringvec@.len() > 0 ==> exists|i: int|
            0 <= i < stringvec@.len() && byte_len(#[trigger] stringvec@[i]@) == longest,
{
    let mut longest: usize = 0;
    let mut i: usize = 0;
    while i < stringvec.len()
        invariant
            0 <= i <= stringvec@.len(),
            forall|k: int| 0 <= k < i ==> byte_len(#[trigger] stringvec@[k]@) <= longest,
            i == 0 ==> longest == 0,
            i > 0 ==> exists|k: int|
                0 <= k < i && byte_len(#[trigger] stringvec@[k]@) == longest,
        decreases stringvec@.len() - i,
    {
        let item_len = str_byte_len(stringvec[i].as_str());
        if item_len > longest {
            longest = item_len;
        }
        i = i + 1;
    }
    longest
}

} // verus!
