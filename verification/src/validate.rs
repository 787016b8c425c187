use vstd::prelude::*;

verus! {

/// Unicode's White_Space property.
pub open spec fn is_white_space(c: char) -> bool {
    let u = c as u32;
    (9 <= u && u <= 13) || u == 32 || u == 0x85 || u == 0xA0 || u == 0x1680 || (0x2000 <= u && u <= 0x200A)
        || u == 0x2028 || u == 0x2029 || u == 0x202F || u == 0x205F || u == 0x3000
}

/// Whether `c` is whitespace: Unicode's White_Space property, which
/// `char::is_whitespace` tests.
pub(crate) fn char_is_whitespace(c: char) -> (b: bool)
    ensures
        b == is_white_space(c),
{
    let u = c as u32;
    (9 <= u && u <= 13) || u == 32 || u == 0x85 || u == 0xA0 || u == 0x1680 || (0x2000 <= u && u <= 0x200A)
        || u == 0x2028 || u == 0x2029 || u == 0x202F || u == 0x205F || u == 0x3000
}

/// The domain part of an address is acceptable: it holds a dot, but neither
/// starts nor ends with one.
pub open spec fn domain_ok(d: Seq<char>) -> bool {
    &&& d.contains('.')
    &&& d[0] != '.'
    &&& d[d.len() - 1] != '.'
}

/// An acceptable email address: exactly one `@`, not first, a domain as
/// above after it, and no whitespace anywhere.
pub open spec fn valid_email(s: Seq<char>) -> bool {
    &&& exists|i: int| #![trigger s[i]] 0 < i < s.len() && s[i] == '@'
            && (forall|j: int| 0 <= j < s.len() && j != i ==> s[j] != '@')
            && domain_ok(s.subrange(i + 1, s.len() as int))
    &&& forall|j: int| 0 <= j < s.len() ==> !is_white_space(#[trigger] s[j])
}

/// Checks an email address the way the schema's `@email` rule does.
pub fn email_ok(s: &str) -> (b: bool)
    ensures
        b == valid_email(s@),
{
    let n = s.unicode_len();
    let mut at: Option<usize> = None;
    let mut multiple = false;
    let mut ws = false;
    let mut j: usize = 0;
    while j < n
        invariant
            n == s@.len(),
            j <= n,
            match at {
                None => forall|k: int| 0 <= k < j ==> s@[k] != '@',
                Some(p) => p < j && s@[p as int] == '@' && (forall|k: int| 0 <= k < p ==> s@[k] != '@')
                    && (multiple <==> exists|k: int| p < k < j && s@[k] == '@'),
            },
            at is None ==> !multiple,
            ws <==> exists|k: int| 0 <= k < j && is_white_space(#[trigger] s@[k]),
        decreases n - j,
    {
        let c = s.get_char(j);
        if c == '@' {
            match at {
                None => {
                    at = Some(j);
                },
                Some(p) => {
                    multiple = true;
                    assert(p < j && s@[j as int] == '@');
                },
            }
        }
        if char_is_whitespace(c) {
            ws = true;
        }
        j = j + 1;
    }
    match at {
        None => {
            proof {
                if valid_email(s@) {
                    let i = choose|i: int| #![trigger s@[i]] 0 < i < s@.len() && s@[i] == '@'
                        && (forall|j: int| 0 <= j < s@.len() && j != i ==> s@[j] != '@')
                        && domain_ok(s@.subrange(i + 1, s@.len() as int));
                    assert(s@[i] == '@');
                }
            }
            false
        },
        Some(p) => {
            if multiple || ws || p == 0 || p + 1 >= n {
                proof {
                    if valid_email(s@) {
                        let i = choose|i: int| #![trigger s@[i]] 0 < i < s@.len() && s@[i] == '@'
                            && (forall|j: int| 0 <= j < s@.len() && j != i ==> s@[j] != '@')
                            && domain_ok(s@.subrange(i + 1, s@.len() as int));
                        assert(s@[i] == '@');
                        if i != p {
                            assert(s@[p as int] == '@');
                        }
                        if multiple {
                            let k = choose|k: int| p < k < n && s@[k] == '@';
                            assert(s@[k] == '@');
                        }
                        if ws {
                            let k = choose|k: int| 0 <= k < n && is_white_space(#[trigger] s@[k]);
                            assert(!is_white_space(s@[k]));
                        }
                        if p + 1 >= n {
                            let d = s@.subrange(i + 1, s@.len() as int);
                            assert(d.len() == 0);
                            assert(!d.contains('.'));
                        }
                    }
                }
                false
            } else {
                let first = s.get_char(p + 1);
                let last = s.get_char(n - 1);
                let mut dot = false;
                let mut k: usize = p + 1;
                while k < n
                    invariant
                        n == s@.len(),
                        p + 1 <= k <= n,
                        dot <==> exists|q: int| p + 1 <= q < k && s@[q] == '.',
                    decreases n - k,
                {
                    if s.get_char(k) == '.' {
                        dot = true;
                    }
                    k = k + 1;
                }
                let ok = dot && first != '.' && last != '.';
                proof {
                    let d = s@.subrange(p + 1, s@.len() as int);
                    assert(d[0] == first);
                    assert(d[d.len() - 1] == last);
                    assert(d.contains('.') <==> dot) by {
                        if dot {
                            let q = choose|q: int| p + 1 <= q < n && s@[q] == '.';
                            assert(d[q - p - 1] == '.');
                        }
                        if d.contains('.') {
                            let q = choose|q: int| 0 <= q < d.len() && d[q] == '.';
                            assert(s@[p + 1 + q] == '.');
                        }
                    }
                    assert(forall|j: int| 0 <= j < s@.len() && j != p ==> s@[j] != '@') by {
                        assert forall|j: int| 0 <= j < s@.len() && j != p implies s@[j] != '@' by {
                            if j > p && s@[j] == '@' {
                                assert(exists|k: int| p < k < n && s@[k] == '@');
                            }
                        }
                    }
                    if ok {
                        assert(s@[p as int] == '@');
                    } else if valid_email(s@) {
                        let i = choose|i: int| #![trigger s@[i]] 0 < i < s@.len() && s@[i] == '@'
                            && (forall|j: int| 0 <= j < s@.len() && j != i ==> s@[j] != '@')
                            && domain_ok(s@.subrange(i + 1, s@.len() as int));
                        assert(s@[i] == '@');
                        if i != p {
                            assert(s@[p as int] == '@');
                        }
                    }
                }
                ok
            }
        },
    }
}

/// The length of `s` in characters lies in `lo..=hi`.
pub open spec fn length_between(s: Seq<char>, lo: nat, hi: nat) -> bool {
    lo <= s.len() && s.len() <= hi
}

} // verus!
