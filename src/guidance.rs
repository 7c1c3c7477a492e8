//! Choosing a warm start from an earlier batch of solutions, and reading
//! the run parameters from a solution file's path.
use vstd::prelude::*;
use crate::config::Metadata;

verus! {

/// First position `p >= i` at which `pat` occurs in `s`, or -1.
pub open spec fn find_from(s: Seq<char>, pat: Seq<char>, i: int) -> int
    decreases s.len() + 1 - i,
{
    if i < 0 || i + pat.len() > s.len() {
        -1
    } else if s.subrange(i, i + pat.len()) == pat {
        i
    } else {
        find_from(s, pat, i + 1)
    }
}

/// The part of `s` before the first occurrence of `pat`, or all of `s`.
pub open spec fn first_piece(s: Seq<char>, pat: Seq<char>) -> Seq<char> {
    let p = find_from(s, pat, 0);
    if p >= 0 {
        s.subrange(0, p)
    } else {
        s
    }
}

/// Piece `k` of `s` split at the occurrences of `pat`, if there are that
/// many pieces.
pub open spec fn split_piece(s: Seq<char>, pat: Seq<char>, k: nat) -> Option<Seq<char>>
    decreases k,
{
    let p = find_from(s, pat, 0);
    if k == 0 {
        Some(first_piece(s, pat))
    } else if p < 0 {
        None
    } else {
        split_piece(s.subrange(p + pat.len(), s.len() as int), pat, (k - 1) as nat)
    }
}

pub open spec fn lattice_word() -> Seq<char> {
    seq!['L', 'a', 't', 't', 'i', 'c', 'e']
}

pub open spec fn gamma_word() -> Seq<char> {
    seq!['G', 'a', 'm', 'm', 'a']
}

pub open spec fn strength_word() -> Seq<char> {
    seq!['S', 't', 'r', 'e', 'n', 'g', 't', 'h']
}

/// The fields a solution file's path names, as in
/// `.../Gamma<g>/Strength<s>_Lattice<l>_<l>_<h>_...`: the text after
/// `Gamma` up to `/`, after `Strength` up to `_`, and the first and third
/// `_`-separated fields after `Lattice`.
pub open spec fn path_fields(p: Seq<char>) -> Option<(Seq<char>, Seq<char>, Seq<char>, Seq<char>)> {
    let v0 = first_piece(p, lattice_word());
    match (split_piece(p, lattice_word(), 1), split_piece(v0, gamma_word(), 1)) {
        (Some(v1), Some(one)) => match (split_piece(one, strength_word(), 1), split_piece(v1, seq!['_'], 2)) {
            (Some(st), Some(height)) => Some(
                (
                    first_piece(one, seq!['/']),
                    first_piece(st, seq!['_']),
                    first_piece(v1, seq!['_']),
                    height,
                ),
            ),
            _ => None,
        },
        _ => None,
    }
}

proof fn lemma_find_from(s: Seq<char>, pat: Seq<char>, i: int)
    requires
        0 <= i,
    ensures
        find_from(s, pat, i) >= 0 ==> i <= find_from(s, pat, i) && find_from(s, pat, i) + pat.len()
            <= s.len() && s.subrange(find_from(s, pat, i), find_from(s, pat, i) + pat.len()) == pat,
    decreases s.len() + 1 - i,
{
    if i + pat.len() <= s.len() && s.subrange(i, i + pat.len()) != pat {
        lemma_find_from(s, pat, i + 1);
    }
}

/// First occurrence of `pat` in `s`.
fn find(s: &str, pat: &str) -> (r: Option<usize>)
    ensures
        match r {
            Some(p) => find_from(s@, pat@, 0) == p && p + pat@.len() <= s@.len(),
            None => find_from(s@, pat@, 0) < 0,
        },
{
    proof {
        lemma_find_from(s@, pat@, 0);
    }
    let slen = s.unicode_len();
    let plen = pat.unicode_len();
    if plen > slen {
        return None;
    }
    let last = slen - plen;
    let mut i: usize = 0;
    loop
        invariant
            slen == s@.len(),
            plen == pat@.len(),
            plen <= slen,
            last == slen - plen,
            0 <= i <= last,
            find_from(s@, pat@, 0) == find_from(s@, pat@, i as int),
        ensures
            find_from(s@, pat@, 0) < 0,
        decreases last - i,
    {
        let mut j: usize = 0;
        let mut same = true;
        while j < plen
            invariant
                slen == s@.len(),
                plen == pat@.len(),
                i + plen <= slen,
                0 <= j <= plen,
                same ==> forall|t: int| 0 <= t < j ==> s@[i + t] == pat@[t],
                !same ==> s@.subrange(i as int, i + plen) != pat@,
            decreases plen - j,
        {
            if s.get_char(i + j) != pat.get_char(j) {
                assert(s@.subrange(i as int, i + plen)[j as int] != pat@[j as int]);
                same = false;
            }
            j = j + 1;
        }
        if same {
            assert(s@.subrange(i as int, i + plen) =~= pat@);
            return Some(i);
        }
        if i == last {
            assert(find_from(s@, pat@, i + 1) == -1);
            break;
        }
        i = i + 1;
    }
    None
}

/// Piece `k` of `s` split at the occurrences of `pat`.
fn nth_piece(s: &str, pat: &str, k: usize) -> (r: Option<String>)
    ensures
        match r {
            Some(x) => split_piece(s@, pat@, k as nat) == Some(x@),
            None => split_piece(s@, pat@, k as nat) is None,
        },
{
    let mut rest: &str = s;
    let mut left: usize = k;
    loop
        invariant
            split_piece(s@, pat@, k as nat) == split_piece(rest@, pat@, left as nat),
        decreases left,
    {
        match find(rest, pat) {
            None => {
                if left == 0 {
                    return Some(rest.to_owned());
                }
                return None;
            },
            Some(p) => {
                if left == 0 {
                    return Some(rest.substring_char(0, p).to_owned());
                }
                let end = rest.unicode_len();
                let plen = pat.unicode_len();
                rest = rest.substring_char(p + plen, end);
                left = left - 1;
            },
        }
    }
}

/// The Gamma, strength, side length and height fields of a solution file's
/// path, or `None` when the path does not have that shape.
pub fn get_data(file_path: String) -> (r: Option<(String, String, String, String)>)
    ensures
        match r {
            Some(t) => path_fields(file_path@) == Some((t.0@, t.1@, t.2@, t.3@)),
            None => path_fields(file_path@) is None,
        },
{
    proof {
        reveal_strlit("Lattice");
        reveal_strlit("Gamma");
        reveal_strlit("Strength");
        reveal_strlit("_");
        reveal_strlit("/");
    }
    assert("Lattice"@ =~= lattice_word());
    assert("Gamma"@ =~= gamma_word());
    assert("Strength"@ =~= strength_word());
    assert("_"@ =~= seq!['_']);
    assert("/"@ =~= seq!['/']);
    let path = file_path.as_str();
    let v0 = match nth_piece(path, "Lattice", 0) {
        Some(x) => x,
        None => {
            return None;
        },
    };
    let v1 = nth_piece(path, "Lattice", 1);
    let one = nth_piece(v0.as_str(), "Gamma", 1);
    let (v1, one) = match (v1, one) {
        (Some(v1), Some(one)) => (v1, one),
        _ => {
            return None;
        },
    };
    let st = nth_piece(one.as_str(), "Strength", 1);
    let height = nth_piece(v1.as_str(), "_", 2);
    let (st, height) = match (st, height) {
        (Some(st), Some(height)) => (st, height),
        _ => {
            return None;
        },
    };
    let gamma = nth_piece(one.as_str(), "/", 0);
    let strength = nth_piece(st.as_str(), "_", 0);
    let length = nth_piece(v1.as_str(), "_", 0);
    match (gamma, strength, length) {
        (Some(gamma), Some(strength), Some(length)) => Some((gamma, strength, length, height)),
        _ => None,
    }
}

/// The batch was produced by a run with the same field, strength, side
/// length and height as the run recorded in `meta`.
pub fn guidance_matches(meta: &Metadata, gamma: i64, strength: i64, length: i64, height: i64) -> (r: bool)
    ensures
        r == (gamma == meta.gamma && strength == meta.strength && length == meta.side_length
            && height == meta.height),
{
    gamma == meta.gamma && strength == meta.strength && length == meta.side_length && height
        == meta.height
}

/// Index of the solution a random draw selects among `count`.
pub fn pick_guidance_index(draw: usize, count: usize) -> (r: usize)
    requires
        count > 0,
    ensures
        r == draw % count,
        r < count,
{
    draw % count
}

/// Relies on `rand::random`: a value drawn from the thread-local generator;
/// nothing is known of it.
pub assume_specification<T>[ rand::random::<T> ]() -> (r: T)
    where
        rand::distributions::Standard: rand::distributions::Distribution<T>,
;

/// Draws the index of one of `count` solutions at random.
pub fn choose_guidance_index(count: usize) -> (r: usize)
    requires
        count > 0,
    ensures
        r < count,
{
    let draw: usize = rand::random::<usize>();
    pick_guidance_index(draw, count)
}

} // verus!
