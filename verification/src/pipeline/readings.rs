//! How the characters recognised in one UI element become readings of a frame: the
//! element's name gives the category and key (`wood_total` is category `wood`, key
//! `total`), and the population box splits `current/max` into its two readings.
use vstd::prelude::*;
use crate::text::{chars_of, string_of, str_eq};
use crate::types::{Results, ResultKey};
use crate::report::{ends_with, ends_with_chars};

verus! {

/// The index of the first `c` in `s`, if any.
pub open spec fn first_index(s: Seq<char>, c: char, k: int) -> Option<int>
    decreases s.len() - k,
{
    if k < 0 || k >= s.len() {
        None
    } else if s[k] == c {
        Some(k)
    } else {
        first_index(s, c, k + 1)
    }
}

/// Category and key of an element: the name split at its first `_`, or the whole name
/// with key `value`.
pub open spec fn element_key(name: Seq<char>) -> ResultKey {
    match first_index(name, '_', 0) {
        Some(i) => (name.take(i), name.skip(i + 1)),
        None => (name, "value"@),
    }
}

/// The readings after recording the text read for an element: the population box's
/// `current/max` (split at its first `/`) gives `total` and `housing`; any other text is
/// recorded under the element's own key.
pub open spec fn record_spec(m: Map<ResultKey, Seq<char>>, name: Seq<char>, value: Seq<char>) -> Map<ResultKey, Seq<char>> {
    let (category, key) = element_key(name);
    if name == "population_total"@ {
        match first_index(value, '/', 0) {
            Some(i) => m.insert((category, "total"@), value.take(i)).insert((category, "housing"@), value.skip(i + 1)),
            None => m.insert((category, key), value),
        }
    } else {
        m.insert((category, key), value)
    }
}

pub proof fn lemma_first_index(s: Seq<char>, c: char, k: int)
    requires
        0 <= k,
    ensures
        first_index(s, c, k) matches Some(j) ==> k <= j < s.len() && s[j] == c,
    decreases s.len() - k,
{
    if k < s.len() && s[k] != c {
        lemma_first_index(s, c, k + 1);
    }
}

/// The index of the first `c` in `s`.
pub fn find_char(s: &Vec<char>, c: char) -> (r: Option<usize>)
    ensures
        match r {
            Some(i) => first_index(s@, c, 0) == Some(i as int) && i < s.len(),
            None => first_index(s@, c, 0) is None,
        },
{
    let mut k: usize = 0;
    while k < s.len()
        invariant
            k <= s@.len(),
            first_index(s@, c, 0) == first_index(s@, c, k as int),
        decreases s.len() - k,
    {
        if s[k] == c {
            return Some(k);
        }
        k = k + 1;
    }
    None
}

fn slice_string(s: &Vec<char>, from: usize, to: usize) -> (r: String)
    requires
        from <= to <= s@.len(),
    ensures
        r@ == s@.subrange(from as int, to as int),
{
    let mut out: Vec<char> = Vec::new();
    let mut k = from;
    while k < to
        invariant
            from <= k <= to <= s@.len(),
            out@ == s@.subrange(from as int, k as int),
        decreases to - k,
    {
        out.push(s[k]);
        assert(s@.subrange(from as int, k + 1) =~= s@.subrange(from as int, k as int).push(s@[k as int]));
        k = k + 1;
    }
    string_of(out.as_slice())
}

/// Records the text read for an element (see `record_spec`).
pub fn record_element(results: &mut Results, name: &str, value: &str)
    ensures
        final(results)@ == record_spec(old(results)@, name@, value@),
{
    let n = chars_of(name);
    let (category, key) = match find_char(&n, '_') {
        Some(i) => (slice_string(&n, 0, i), slice_string(&n, i + 1, n.len())),
        None => (name.to_owned(), "value".to_owned()),
    };
    proof {
        assert(n@.subrange(0, n@.len() as int) =~= n@);
        match first_index(n@, '_', 0) {
            Some(i) => {
                assert(n@.subrange(0, i) =~= n@.take(i));
                assert(n@.subrange(i + 1, n@.len() as int) =~= n@.skip(i + 1));
            },
            None => {},
        }
    }
    assert((category@, key@) == element_key(name@));
    if str_eq(name, "population_total") {
        let v = chars_of(value);
        match find_char(&v, '/') {
            Some(i) => {
                let curr = slice_string(&v, 0, i);
                let max = slice_string(&v, i + 1, v.len());
                proof {
                    assert(v@.subrange(0, i as int) =~= v@.take(i as int));
                    assert(v@.subrange(i + 1, v@.len() as int) =~= v@.skip(i + 1));
                }
                results.insert(category.as_str(), "total", curr.as_str());
                results.insert(category.as_str(), "housing", max.as_str());
            },
            None => {
                results.insert(category.as_str(), key.as_str(), value);
            },
        }
    } else {
        results.insert(category.as_str(), key.as_str(), value);
    }
}

/// The text of an element: the recognised characters, or `0` for an idle-villager box in
/// which no digit was found.
pub open spec fn element_text(name: Seq<char>, matched: Seq<char>) -> Seq<char> {
    if name == "idle_vils"@ && matched.len() == 0 {
        "0"@
    } else {
        matched
    }
}

pub fn element_value(name: &str, matched: &[char]) -> (s: String)
    ensures
        s@ == element_text(name@, matched@),
{
    if str_eq(name, "idle_vils") && matched.len() == 0 {
        "0".to_owned()
    } else {
        string_of(matched)
    }
}


/// The baseline that fixes an element's rows, as `(height, top row)`: none for the
/// idle-villager box, the villager reference for the other `_vils` boxes, the total
/// reference for everything else.
pub open spec fn baseline_for(name: Seq<char>, ref_b: Option<(u32, u32)>, vil_b: Option<(u32, u32)>) -> Option<(u32, u32)> {
    if name == "idle_vils"@ {
        None
    } else if ends_with(name, "_vils"@) {
        vil_b
    } else {
        ref_b
    }
}

/// The window read for an element whose scaled box is `(x, y, w, h)`: where a baseline
/// applies, moved down by the baseline's top row and cut to its height, and marked clipped;
/// `None` where the moved row would pass `u32::MAX`.
pub open spec fn element_window_spec(name: Seq<char>, x: u32, y: u32, w: u32, h: u32, ref_b: Option<(u32, u32)>, vil_b: Option<(u32, u32)>) -> Option<(u32, u32, u32, u32, bool)> {
    match baseline_for(name, ref_b, vil_b) {
        Some((bh, by)) => if y + by <= u32::MAX {
            Some((x, (y + by) as u32, w, bh, true))
        } else {
            None
        },
        None => Some((x, y, w, h, false)),
    }
}

pub fn element_window(name: &str, x: u32, y: u32, w: u32, h: u32, ref_b: Option<(u32, u32)>, vil_b: Option<(u32, u32)>) -> (r: Option<(u32, u32, u32, u32, bool)>)
    ensures
        r == element_window_spec(name@, x, y, w, h, ref_b, vil_b),
{
    let n = chars_of(name);
    let suffix = chars_of("_vils");
    let target = if str_eq(name, "idle_vils") {
        None
    } else if ends_with_chars(&n, &suffix) {
        vil_b
    } else {
        ref_b
    };
    match target {
        Some((bh, by)) => if y <= u32::MAX - by {
            Some((x, y + by, w, bh, true))
        } else {
            None
        },
        None => Some((x, y, w, h, false)),
    }
}

} // verus!
