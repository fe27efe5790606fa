//! The domain blocklist: exact entries and wildcard-suffix entries, and the
//! test of whether a name is blocked.

use vstd::prelude::*;
use vstd::string::{StrSliceExecFns, StringExecFns};

verus! {

/// A wildcard marker stands at `i`: a star followed by a dot.
pub open spec fn star_dot_at(s: Seq<char>, i: int) -> bool {
    0 <= i && i + 1 < s.len() && s[i] == '*' && s[i + 1] == '.'
}

/// The text holds a star somewhere.
pub open spec fn spec_has_star(s: Seq<char>) -> bool {
    exists|i: int| 0 <= i < s.len() && s[i] == '*'
}

/// A valid wildcard entry: exactly one star-dot marker, and not at the end.
pub open spec fn spec_valid_wildcard(s: Seq<char>) -> bool {
    &&& exists|i: int| star_dot_at(s, i)
    &&& forall|i: int, j: int| star_dot_at(s, i) && star_dot_at(s, j) ==> i == j
    &&& forall|i: int| star_dot_at(s, i) ==> i != s.len() - 2
}

/// The position of the one star-dot marker of a valid wildcard entry.
pub open spec fn spec_star_pos(s: Seq<char>) -> int {
    choose|i: int| star_dot_at(s, i)
}

/// Validates one blocklist entry. An entry without a star is a plain domain;
/// one with a star must hold exactly one star-dot marker, not at its end,
/// and what follows the marker is the stored suffix.
pub fn validate_blocklist_entry(s: &str) -> (r: Result<(String, bool), String>)
    ensures
        (r is Ok) == (!spec_has_star(s@) || spec_valid_wildcard(s@)),
        r matches Ok((d, w)) ==> if spec_has_star(s@) {
            w == true && d@ == s@.skip(spec_star_pos(s@) + 2)
        } else {
            w == false && d@ == s@
        },
{
    let n = s.unicode_len();
    let mut has_star = false;
    let mut first: usize = 0;
    let mut found = false;
    let mut multiple = false;
    let mut j: usize = 0;
    while j < n
        invariant
            j <= n,
            n == s@.len(),
            has_star == exists|k: int| 0 <= k < j && s@[k] == '*',
            !found ==> forall|k: int| 0 <= k < j ==> !star_dot_at(s@, k),
            found ==> first < j && star_dot_at(s@, first as int) && (forall|k: int|
                0 <= k < first ==> !star_dot_at(s@, k)),
            multiple ==> exists|k1: int, k2: int|
                k1 != k2 && star_dot_at(s@, k1) && star_dot_at(s@, k2),
            !multiple ==> forall|k1: int, k2: int|
                0 <= k1 < j && 0 <= k2 < j && star_dot_at(s@, k1) && star_dot_at(s@, k2) ==> k1
                    == k2,
        decreases n - j,
    {
        let c = s.get_char(j);
        if c == '*' {
            has_star = true;
            if j + 1 < n && s.get_char(j + 1) == '.' {
                proof {
                    assert(star_dot_at(s@, j as int));
                }
                if !found {
                    first = j;
                    found = true;
                } else {
                    proof {
                        assert(first as int != j as int && star_dot_at(s@, first as int)
                            && star_dot_at(s@, j as int));
                    }
                    multiple = true;
                }
            }
        }
        j = j + 1;
    }
    if !has_star {
        return Ok((s.to_owned(), false));
    }
    if !found {
        proof {
            assert(!spec_valid_wildcard(s@));
        }
        return Err(String::from_str("a star in a blocklist entry must begin a star-dot marker"));
    }
    if multiple {
        proof {
            assert(!spec_valid_wildcard(s@));
        }
        return Err(String::from_str("a blocklist entry may hold only one star-dot marker"));
    }
    if first + 2 == n {
        proof {
            assert(star_dot_at(s@, first as int) && first as int == s@.len() - 2);
            assert(!spec_valid_wildcard(s@));
        }
        return Err(String::from_str("a star-dot marker may not end a blocklist entry"));
    }
    proof {
        assert(star_dot_at(s@, first as int));
        assert(forall|k: int| star_dot_at(s@, k) ==> 0 <= k < n);
        assert(spec_valid_wildcard(s@));
        assert(star_dot_at(s@, spec_star_pos(s@)));
        assert(spec_star_pos(s@) == first as int);
    }
    let d = s.substring_char(first + 2, n).to_owned();
    proof {
        assert(d@ =~= s@.skip(first + 2));
    }
    Ok((d, true))
}

/// One entry blocks a name: a plain entry equals it; a wildcard entry's
/// suffix follows a dot at the end of it.
pub open spec fn entry_blocks(e: (String, bool), name: Seq<char>) -> bool {
    if e.1 {
        exists|p: Seq<char>| name == p + seq!['.'] + e.0@
    } else {
        e.0@ == name
    }
}

/// A name is blocked when some entry of the list blocks it.
pub open spec fn spec_blocked(bl: Seq<(String, bool)>, name: Seq<char>) -> bool {
    exists|i: int| 0 <= i < bl.len() && entry_blocks(#[trigger] bl[i], name)
}

/// Whether `suffix`, preceded by a dot, ends `name`.
fn has_dot_suffix(name: &String, suffix: &String) -> (r: bool)
    ensures
        r == exists|p: Seq<char>| name@ == p + seq!['.'] + suffix@,
{
    let nl = name.as_str().unicode_len();
    let sl = suffix.as_str().unicode_len();
    if nl <= sl {
        proof {
            assert forall|p: Seq<char>| name@ != p + seq!['.'] + suffix@ by {
                assert((p + seq!['.'] + suffix@).len() == p.len() + 1 + suffix@.len());
            }
        }
        return false;
    }
    let dot_pos = nl - sl - 1;
    if s_char(name, dot_pos) != '.' {
        proof {
            assert forall|p: Seq<char>| name@ != p + seq!['.'] + suffix@ by {
                if name@ == p + seq!['.'] + suffix@ {
                    assert(p.len() == dot_pos);
                    assert((p + seq!['.'] + suffix@)[dot_pos as int] == '.');
                }
            }
        }
        return false;
    }
    let mut k: usize = 0;
    while k < sl
        invariant
            k <= sl,
            nl == name@.len(),
            sl == suffix@.len(),
            nl >= sl + 1,
            dot_pos == nl - sl - 1,
            name@[dot_pos as int] == '.',
            forall|m: int| 0 <= m < k ==> name@[dot_pos + 1 + m] == suffix@[m],
        decreases sl - k,
    {
        if s_char(name, dot_pos + 1 + k) != s_char(suffix, k) {
            proof {
                assert forall|p: Seq<char>| name@ != p + seq!['.'] + suffix@ by {
                    if name@ == p + seq!['.'] + suffix@ {
                        assert(p.len() == dot_pos);
                        assert((p + seq!['.'] + suffix@)[dot_pos + 1 + k] == suffix@[k as int]);
                    }
                }
            }
            return false;
        }
        k = k + 1;
    }
    proof {
        let p = name@.take(dot_pos as int);
        assert(name@ =~= p + seq!['.'] + suffix@);
    }
    true
}

/// The character at `i` of a string.
fn s_char(s: &String, i: usize) -> (c: char)
    requires
        i < s@.len(),
    ensures
        c == s@[i as int],
{
    s.as_str().get_char(i)
}

/// Whether the blocklist blocks a name: the name equals a plain entry, or a
/// wildcard entry's suffix, preceded by a dot, ends it.
pub fn is_blocked(blocklist: &Vec<(String, bool)>, name: &String) -> (r: bool)
    ensures
        r == spec_blocked(blocklist@, name@),
{
    let mut i: usize = 0;
    while i < blocklist.len()
        invariant
            i <= blocklist@.len(),
            forall|j: int| 0 <= j < i ==> !entry_blocks(#[trigger] blocklist@[j], name@),
        decreases blocklist@.len() - i,
    {
        let e = &blocklist[i];
        if e.1 {
            if has_dot_suffix(name, &e.0) {
                return true;
            }
        } else {
            if e.0.eq(name) {
                return true;
            }
        }
        i = i + 1;
    }
    false
}

} // verus!
