use vstd::prelude::*;
use vstd::string::StrSliceExecFns;
use vstd::utf8::is_ascii_chars;

verus! {

/// How a string relates to the alphabet.
#[derive(Debug, PartialEq, Eq, Clone)]
pub enum PangramKind {
    /// Uses each letter of the alphabet exactly once.
    Perfect,
    /// Uses each letter of the alphabet.
    Good,
    /// Is not ASCII, misses a letter, or holds a character that is neither a
    /// letter nor ignorable whitespace or punctuation.
    Bad,
}

/// The code point of a character with any ASCII upper-case letter lowered.
pub open spec fn lower_code(c: char) -> int {
    if 65 <= c as int && c as int <= 90 {
        c as int + 32
    } else {
        c as int
    }
}

/// ASCII whitespace or punctuation: ignored by the scan.
pub open spec fn skippable_code(x: int) -> bool {
    ||| x == 32
    ||| (9 <= x && x <= 13)
    ||| (33 <= x && x <= 47)
    ||| (58 <= x && x <= 64)
    ||| (91 <= x && x <= 96)
    ||| (123 <= x && x <= 126)
}

/// A lower-case ASCII letter.
pub open spec fn letter_code(x: int) -> bool {
    97 <= x && x <= 122
}

/// Does the string hold a character that, once lowered, is neither a letter
/// nor ignorable?
pub open spec fn has_invalid_char(s: Seq<char>) -> bool {
    exists|i: int|
        0 <= i < s.len() && !skippable_code(lower_code(#[trigger] s[i])) && !letter_code(
            lower_code(s[i]),
        )
}

/// How often the letter with alphabet index `li` (0 for `a`) occurs in the
/// string, counting upper- and lower-case alike.
pub open spec fn letter_count(s: Seq<char>, li: int) -> nat
    decreases s.len(),
{
    if s.len() == 0 {
        0
    } else {
        letter_count(s.drop_last(), li) + (if lower_code(s.last()) == 97 + li {
            1nat
        } else {
            0nat
        })
    }
}

/// The classification the scan must compute: non-ASCII input or an invalid
/// character is `Bad`; a missing letter is `Bad`; every letter exactly once is
/// `Perfect`; otherwise every letter occurs and the string is `Good`.
pub open spec fn pangram_spec(s: Seq<char>) -> PangramKind {
    if !is_ascii_chars(s) || has_invalid_char(s) {
        PangramKind::Bad
    } else if exists|li: int| 0 <= li < 26 && #[trigger] letter_count(s, li) == 0 {
        PangramKind::Bad
    } else if forall|li: int| 0 <= li < 26 ==> #[trigger] letter_count(s, li) == 1 {
        PangramKind::Perfect
    } else {
        PangramKind::Good
    }
}

/// Classifies a string: does it use every letter of the alphabet, and does it
/// use each exactly once? Characters are lowered first; whitespace and
/// punctuation are ignored; anything else that is not a letter makes the
/// string `Bad`, as does non-ASCII input.
pub fn is_pangram(input_str: &str) -> (k: PangramKind)
    ensures
        k == pangram_spec(input_str@),
{
    let ghost s = input_str@;
    if !input_str.is_ascii() {
        return PangramKind::Bad;
    }
    let n = input_str.unicode_len();
    // one counter per letter, saturating at 2: only 0, 1 and "more" matter
    let mut counts: Vec<u8> = Vec::new();
    let mut t: usize = 0;
    while t < 26
        invariant
            t <= 26,
            counts@.len() == t,
            forall|q: int| 0 <= q < t ==> counts@[q] == 0,
        decreases 26 - t,
    {
        counts.push(0);
        t += 1;
    }
    proof {
        assert forall|li: int| 0 <= li < 26 implies counts@[li] as nat == spec_cap2(
            letter_count(s.take(0), li),
        ) by {
            assert(s.take(0).len() == 0);
        }
    }
    let mut i: usize = 0;
    while i < n
        invariant
            i <= n,
            n == s.len(),
            s == input_str@,
            is_ascii_chars(s),
            counts@.len() == 26,
            forall|q: int|
                0 <= q < i ==> skippable_code(lower_code(#[trigger] s[q])) || letter_code(
                    lower_code(s[q]),
                ),
            forall|li: int|
                0 <= li < 26 ==> (#[trigger] counts@[li]) as nat == spec_cap2(
                    letter_count(s.take(i as int), li),
                ),
        decreases n - i,
    {
        let c = input_str.get_char(i);
        proof {
            assert('\0' <= s[i as int] <= '\u{7f}');
            assert(s.take(i as int + 1).drop_last() =~= s.take(i as int));
            assert(s.take(i as int + 1).last() == s[i as int]);
        }
        let cb = c as u8;
        let cl: u8 = if 65 <= cb && cb <= 90 {
            cb + 32
        } else {
            cb
        };
        proof {
            assert(cl as int == lower_code(c));
        }
        let skip = cl == 32 || (9 <= cl && cl <= 13) || (33 <= cl && cl <= 47) || (58 <= cl && cl
            <= 64) || (91 <= cl && cl <= 96) || (123 <= cl && cl <= 126);
        if skip {
            proof {
                assert forall|li: int| 0 <= li < 26 implies (#[trigger] counts@[li]) as nat
                    == spec_cap2(letter_count(s.take(i as int + 1), li)) by {
                    assert(letter_count(s.take(i as int + 1), li) == letter_count(
                        s.take(i as int),
                        li,
                    ));
                }
            }
        } else if 97 <= cl && cl <= 122 {
            let idx = (cl - 97) as usize;
            let cur = counts[idx];
            if cur < 2 {
                counts[idx] = cur + 1;
            }
            proof {
                assert forall|li: int| 0 <= li < 26 implies (#[trigger] counts@[li]) as nat
                    == spec_cap2(letter_count(s.take(i as int + 1), li)) by {
                    if li == idx as int {
                        assert(letter_count(s.take(i as int + 1), li) == letter_count(
                            s.take(i as int),
                            li,
                        ) + 1);
                    } else {
                        assert(letter_count(s.take(i as int + 1), li) == letter_count(
                            s.take(i as int),
                            li,
                        ));
                    }
                }
            }
        } else {
            proof {
                assert(!skippable_code(lower_code(s[i as int])));
                assert(!letter_code(lower_code(s[i as int])));
                assert(has_invalid_char(s));
            }
            return PangramKind::Bad;
        }
        i += 1;
    }
    proof {
        assert(s.take(n as int) =~= s);
        assert(!has_invalid_char(s)) by {
            if has_invalid_char(s) {
                let q = choose|q: int|
                    0 <= q < s.len() && !skippable_code(lower_code(#[trigger] s[q]))
                        && !letter_code(lower_code(s[q]));
                assert(skippable_code(lower_code(s[q])) || letter_code(lower_code(s[q])));
            }
        }
    }
    let mut perfect = true;
    let mut li: usize = 0;
    while li < 26
        invariant
            li <= 26,
            counts@.len() == 26,
            forall|q: int|
                0 <= q < 26 ==> (#[trigger] counts@[q]) as nat == spec_cap2(letter_count(s, q)),
            forall|q: int| 0 <= q < li ==> #[trigger] letter_count(s, q) >= 1,
            perfect <==> (forall|q: int| 0 <= q < li ==> #[trigger] letter_count(s, q) == 1),
            !has_invalid_char(s),
            is_ascii_chars(s),
            s == input_str@,
        decreases 26 - li,
    {
        let cnt = counts[li];
        if cnt == 0 {
            proof {
                assert(letter_count(s, li as int) == 0);
            }
            return PangramKind::Bad;
        }
        if cnt > 1 {
            proof {
                assert(letter_count(s, li as int) != 1);
            }
            perfect = false;
        }
        li += 1;
    }
    if perfect {
        PangramKind::Perfect
    } else {
        PangramKind::Good
    }
}

/// Caps a count at two: the scan only distinguishes zero, one, and more.
pub open spec fn spec_cap2(x: nat) -> nat {
    if x >= 2 {
        2
    } else {
        x
    }
}

} // verus!
