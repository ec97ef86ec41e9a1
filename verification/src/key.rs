use vstd::prelude::*;
use vstd::string::StrSliceExecFns;

verus! {

/// A key type usable by the hash table.
///
/// Hashing must be a mathematical function of the key's abstract value
/// (its view), so that equal keys always land in the same bucket, and
/// the executable equality test must decide equality of the views.
pub trait MapKey: View + Sized {
    /// The hash, as a function of the key's abstract value.
    spec fn hash_of(key: Self::V) -> u64;

    /// Computes the hash of this key; it agrees with `hash_of` on the view.
    fn hash_code(&self) -> (h: u64)
        ensures
            h == Self::hash_of(self@),
    ;

    /// Decides whether two keys have the same abstract value.
    fn key_eq(&self, other: &Self) -> (r: bool)
        ensures
            r == (self@ == other@),
    ;
}

impl MapKey for u8 {
    open spec fn hash_of(key: u8) -> u64 {
        key as u64
    }

    fn hash_code(&self) -> u64 {
        *self as u64
    }

    fn key_eq(&self, other: &Self) -> bool {
        *self == *other
    }
}

impl MapKey for u32 {
    open spec fn hash_of(key: u32) -> u64 {
        key as u64
    }

    fn hash_code(&self) -> u64 {
        *self as u64
    }

    fn key_eq(&self, other: &Self) -> bool {
        *self == *other
    }
}

impl MapKey for u64 {
    open spec fn hash_of(key: u64) -> u64 {
        key
    }

    fn hash_code(&self) -> u64 {
        *self
    }

    fn key_eq(&self, other: &Self) -> bool {
        *self == *other
    }
}

impl MapKey for usize {
    open spec fn hash_of(key: usize) -> u64 {
        key as u64
    }

    fn hash_code(&self) -> u64 {
        *self as u64
    }

    fn key_eq(&self, other: &Self) -> bool {
        *self == *other
    }
}

impl MapKey for i32 {
    open spec fn hash_of(key: i32) -> u64 {
        (key as int + 0x8000_0000) as u64
    }

    fn hash_code(&self) -> u64 {
        ((*self as i64) + 0x8000_0000i64) as u64
    }

    fn key_eq(&self, other: &Self) -> bool {
        *self == *other
    }
}

/// One step of the character hash: keep the accumulator below 2^32 so the
/// multiply-and-add never exceeds 64 bits.
pub open spec fn char_hash_step(h: u64, c: char) -> u64 {
    ((h as int % 0x1_0000_0000) * 31 + c as int) as u64
}

/// Hash of a character sequence: a polynomial accumulation over the characters.
pub open spec fn chars_hash(s: Seq<char>) -> u64
    decreases s.len(),
{
    if s.len() == 0 {
        0
    } else {
        char_hash_step(chars_hash(s.drop_last()), s.last())
    }
}

/// Computes `chars_hash` over the characters of a string slice.
fn hash_str(s: &str) -> (h: u64)
    ensures
        h == chars_hash(s@),
{
    let n = s.unicode_len();
    let mut h: u64 = 0;
    let mut i: usize = 0;
    while i < n
        invariant
            i <= n,
            n == s@.len(),
            h == chars_hash(s@.take(i as int)),
        decreases n - i,
    {
        let c = s.get_char(i);
        proof {
            assert(s@.take(i as int + 1).drop_last() =~= s@.take(i as int));
            assert(s@.take(i as int + 1).last() == s@[i as int]);
        }
        h = (h % 0x1_0000_0000) * 31 + (c as u64);
        i += 1;
    }
    proof {
        assert(s@.take(n as int) =~= s@);
    }
    h
}

/// Character-by-character equality of two string slices.
fn str_equal(a: &str, b: &str) -> (r: bool)
    ensures
        r == (a@ == b@),
{
    let n = a.unicode_len();
    let m = b.unicode_len();
    if n != m {
        return false;
    }
    let mut i: usize = 0;
    while i < n
        invariant
            i <= n,
            n == a@.len(),
            n == b@.len(),
            forall|k: int| 0 <= k < i ==> a@[k] == b@[k],
        decreases n - i,
    {
        if a.get_char(i) != b.get_char(i) {
            return false;
        }
        i += 1;
    }
    proof {
        assert(a@ =~= b@);
    }
    true
}

impl<'a> MapKey for &'a str {
    open spec fn hash_of(key: Seq<char>) -> u64 {
        chars_hash(key)
    }

    fn hash_code(&self) -> u64 {
        hash_str(*self)
    }

    fn key_eq(&self, other: &Self) -> bool {
        str_equal(*self, *other)
    }
}

impl MapKey for String {
    open spec fn hash_of(key: Seq<char>) -> u64 {
        chars_hash(key)
    }

    fn hash_code(&self) -> u64 {
        hash_str(self.as_str())
    }

    fn key_eq(&self, other: &Self) -> bool {
        str_equal(self.as_str(), other.as_str())
    }
}

/// A borrowed query form for looking up keys of type `K`: any type with the
/// same abstract value whose hash and equality agree with `K`'s. Every key
/// type queries itself; a string slice may query owned-string keys.
pub trait KeyQuery<K: MapKey>: View<V = <K as View>::V> {
    /// Computes `K`'s hash of this query's abstract value.
    fn query_hash(&self) -> (h: u64)
        ensures
            h == K::hash_of(self@),
    ;

    /// Decides whether this query and a stored key have the same abstract
    /// value.
    fn query_eq(&self, key: &K) -> (r: bool)
        ensures
            r == (self@ == key@),
    ;
}

impl<K: MapKey> KeyQuery<K> for K {
    fn query_hash(&self) -> u64 {
        self.hash_code()
    }

    fn query_eq(&self, key: &K) -> bool {
        self.key_eq(key)
    }
}

impl<'a> KeyQuery<String> for &'a str {
    fn query_hash(&self) -> u64 {
        hash_str(*self)
    }

    fn query_eq(&self, key: &String) -> bool {
        str_equal(*self, key.as_str())
    }
}

} // verus!
