//! Release version strings ("0.1.2", "v0.1.2") and the update check built on them.
//! Fetching the latest release tag over the network is I/O and lives with the
//! application; the comparison of the fetched tag with the running version is here.
use vstd::prelude::*;
use crate::text::{
    all_digits, chars_of, dec_digits, decimal_value, digit_char, digit_val, is_ws, lemma_trim_end_take,
    lemma_trim_start_skip, parse_u32, parse_u32_spec, trim, trim_chars, trim_end, trim_start,
};

verus! {

/// Pieces of `s` between the `'.'` separators, as `str::split('.')` yields them
/// (empty pieces included; an empty string gives one empty piece).
pub open spec fn split_dots(s: Seq<char>) -> Seq<Seq<char>>
    decreases s.len(),
{
    if s.len() == 0 {
        seq![Seq::<char>::empty()]
    } else {
        let rest = split_dots(s.drop_last());
        if s.last() == '.' {
            rest.push(Seq::<char>::empty())
        } else {
            rest.update(rest.len() - 1, rest.last().push(s.last()))
        }
    }
}

proof fn lemma_split_dots_nonempty(s: Seq<char>)
    ensures
        split_dots(s).len() >= 1,
    decreases s.len(),
{
    if s.len() > 0 {
        lemma_split_dots_nonempty(s.drop_last());
    }
}

/// The text with one leading `v` removed, if there is one.
pub open spec fn strip_v(s: Seq<char>) -> Seq<char> {
    if s.len() > 0 && s[0] == 'v' {
        s.drop_first()
    } else {
        s
    }
}

/// The `(major, minor, patch)` triple that a version string denotes, if any:
/// surrounding whitespace and one leading `v` are ignored, and exactly three
/// dot-separated `u32` numbers must remain.
pub open spec fn version_spec(v: Seq<char>) -> Option<(u32, u32, u32)> {
    let parts = split_dots(strip_v(trim(v)));
    if parts.len() == 3 && parse_u32_spec(parts[0]) is Some && parse_u32_spec(parts[1]) is Some
        && parse_u32_spec(parts[2]) is Some {
        Some(
            (
                parse_u32_spec(parts[0])->0,
                parse_u32_spec(parts[1])->0,
                parse_u32_spec(parts[2])->0,
            ),
        )
    } else {
        None
    }
}

/// Lexicographic order on version triples.
pub open spec fn version_gt(a: (u32, u32, u32), b: (u32, u32, u32)) -> bool {
    ||| a.0 > b.0
    ||| (a.0 == b.0 && a.1 > b.1)
    ||| (a.0 == b.0 && a.1 == b.1 && a.2 > b.2)
}

/// Whether `latest` names a strictly higher version than `current`; false when
/// either does not parse.
pub open spec fn update_available_spec(current: Seq<char>, latest: Seq<char>) -> bool {
    match (version_spec(current), version_spec(latest)) {
        (Some(c), Some(l)) => version_gt(l, c),
        _ => false,
    }
}

/// Splits at every `'.'`.
fn split_on_dots(s: &[char]) -> (parts: Vec<Vec<char>>)
    ensures
        parts@.map_values(|p: Vec<char>| p@) == split_dots(s@),
{
    let mut parts: Vec<Vec<char>> = Vec::new();
    let mut cur: Vec<char> = Vec::new();
    for i in 0..s.len()
        invariant
            parts@.map_values(|p: Vec<char>| p@).push(cur@) == split_dots(s@.take(i as int)),
    {
        let c = s[i];
        let ghost prev = s@.take(i as int);
        assert(s@.take(i + 1).drop_last() =~= prev);
        assert(s@.take(i + 1).last() == c);
        proof {
            lemma_split_dots_nonempty(prev);
        }
        if c == '.' {
            let ghost before = parts@.map_values(|p: Vec<char>| p@);
            let ghost done_view = cur@;
            let done = cur;
            parts.push(done);
            assert(parts@.map_values(|p: Vec<char>| p@) =~= before.push(done_view));
            cur = Vec::new();
            assert(parts@.map_values(|p: Vec<char>| p@).push(cur@) =~= split_dots(s@.take(i + 1)));
        } else {
            let ghost before = parts@.map_values(|p: Vec<char>| p@).push(cur@);
            cur.push(c);
            assert(parts@.map_values(|p: Vec<char>| p@).push(cur@) =~= before.update(
                before.len() - 1,
                before.last().push(c),
            ));
        }
    }
    assert(s@.take(s@.len() as int) =~= s@);
    let ghost before = parts@.map_values(|p: Vec<char>| p@);
    let ghost last_view = cur@;
    parts.push(cur);
    assert(parts@.map_values(|p: Vec<char>| p@) =~= before.push(last_view));
    parts
}

/// Parses a version string like "0.1.2" or "v0.1.2" into a major, minor, and patch number tuple.
pub fn parse_version(v: &str) -> (r: Option<(u32, u32, u32)>)
    ensures
        r == version_spec(v@),
{
    let chars = chars_of(v);
    let trimmed = trim_chars(&chars);
    let clean: Vec<char> = if trimmed.len() > 0 && trimmed[0] == 'v' {
        let mut c: Vec<char> = Vec::new();
        let mut k: usize = 1;
        while k < trimmed.len()
            invariant
                1 <= k <= trimmed@.len(),
                c@ == trimmed@.subrange(1, k as int),
            decreases trimmed.len() - k,
        {
            c.push(trimmed[k]);
            assert(trimmed@.subrange(1, k + 1) =~= trimmed@.subrange(1, k as int).push(
                trimmed@[k as int],
            ));
            k = k + 1;
        }
        assert(c@ =~= trimmed@.drop_first());
        c
    } else {
        trimmed
    };
    assert(clean@ == strip_v(trim(v@)));
    let parts = split_on_dots(&clean);
    if parts.len() != 3 {
        return None;
    }
    assert(parts[0]@ == parts@.map_values(|p: Vec<char>| p@)[0]);
    assert(parts[1]@ == parts@.map_values(|p: Vec<char>| p@)[1]);
    assert(parts[2]@ == parts@.map_values(|p: Vec<char>| p@)[2]);
    let major = match parse_u32(&parts[0]) {
        Some(x) => x,
        None => return None,
    };
    let minor = match parse_u32(&parts[1]) {
        Some(x) => x,
        None => return None,
    };
    let patch = match parse_u32(&parts[2]) {
        Some(x) => x,
        None => return None,
    };
    Some((major, minor, patch))
}

/// Checks if `latest` is a higher version than `current`.
pub fn is_update_available(current: &str, latest: &str) -> (b: bool)
    ensures
        b == update_available_spec(current@, latest@),
{
    match (parse_version(current), parse_version(latest)) {
        (Some(curr), Some(lat)) => {
            lat.0 > curr.0 || (lat.0 == curr.0 && lat.1 > curr.1) || (lat.0 == curr.0 && lat.1
                == curr.1 && lat.2 > curr.2)
        },
        _ => false,
    }
}

/// No version is an update over itself.
pub proof fn law_update_irreflexive(v: Seq<char>)
    ensures
        !update_available_spec(v, v),
{
}

/// If `b` is an update over `a`, then `a` is not an update over `b`.
pub proof fn law_update_asymmetric(a: Seq<char>, b: Seq<char>)
    ensures
        update_available_spec(a, b) ==> !update_available_spec(b, a),
{
}

/// Being an update is transitive.
pub proof fn law_update_transitive(a: Seq<char>, b: Seq<char>, c: Seq<char>)
    requires
        update_available_spec(a, b),
        update_available_spec(b, c),
    ensures
        update_available_spec(a, c),
{
}

/// A string that is not a valid version never takes part in an update.
pub proof fn law_update_needs_valid_versions(a: Seq<char>, b: Seq<char>)
    requires
        version_spec(a) is None || version_spec(b) is None,
    ensures
        !update_available_spec(a, b),
{
}

/// Two strings that denote the same version are interchangeable on either side of the check
/// (so `"0.1.2"`, `"v0.1.2"` and `" v0.1.2 "` all behave alike).
pub proof fn law_update_depends_only_on_version(a: Seq<char>, a2: Seq<char>, b: Seq<char>)
    requires
        version_spec(a) == version_spec(a2),
    ensures
        update_available_spec(a, b) == update_available_spec(a2, b),
        update_available_spec(b, a) == update_available_spec(b, a2),
{
}


// ---------------------------------------------------------------------------
// Rendering a version and reading it back
// ---------------------------------------------------------------------------

/// `a.b.c` with the numbers in decimal.
pub open spec fn version_text(a: u32, b: u32, c: u32) -> Seq<char> {
    dec_digits(a as nat) + seq!['.'] + dec_digits(b as nat) + seq!['.'] + dec_digits(c as nat)
}

proof fn lemma_dec_digits_read_back(n: nat)
    ensures
        dec_digits(n).len() >= 1,
        all_digits(dec_digits(n)),
        decimal_value(dec_digits(n)) == n,
    decreases n,
{
    if n < 10 {
        assert(digit_val(digit_char(n)) == n);
        assert(decimal_value(dec_digits(n).drop_last()) == 0) by {
            assert(dec_digits(n).drop_last() =~= Seq::<char>::empty());
        }
    } else {
        lemma_dec_digits_read_back(n / 10);
        let d = dec_digits(n / 10);
        assert(dec_digits(n).drop_last() =~= d);
        assert(digit_val(digit_char(n % 10)) == n % 10);
        assert((n / 10) * 10 + n % 10 == n) by (nonlinear_arith);
        assert forall|k: int| 0 <= k < dec_digits(n).len() implies crate::text::is_digit(#[trigger] dec_digits(n)[k]) by {
            if k < d.len() {
                assert(dec_digits(n)[k] == d[k]);
            }
        }
    }
}

proof fn lemma_dec_digits_parse(n: u32)
    ensures
        parse_u32_spec(dec_digits(n as nat)) == Some(n),
        forall|k: int| 0 <= k < dec_digits(n as nat).len() ==> crate::text::is_digit(#[trigger] dec_digits(n as nat)[k]),
{
    lemma_dec_digits_read_back(n as nat);
    let s = dec_digits(n as nat);
    assert(crate::text::is_digit(s[0]));
}

proof fn lemma_split_no_dot(t: Seq<char>)
    requires
        forall|k: int| 0 <= k < t.len() ==> #[trigger] t[k] != '.',
    ensures
        split_dots(t) == seq![t],
    decreases t.len(),
{
    if t.len() == 0 {
        assert(t =~= Seq::<char>::empty());
        assert(seq![Seq::<char>::empty()] =~= seq![t]);
    } else {
        lemma_split_no_dot(t.drop_last());
        assert(t.drop_last().push(t.last()) =~= t);
        assert(split_dots(t) =~= seq![t]);
    }
}

proof fn lemma_split_after_dot(s: Seq<char>, t: Seq<char>)
    requires
        forall|k: int| 0 <= k < t.len() ==> #[trigger] t[k] != '.',
    ensures
        split_dots(s + seq!['.'] + t) == split_dots(s).push(t),
    decreases t.len(),
{
    lemma_split_dots_nonempty(s);
    if t.len() == 0 {
        assert(t =~= Seq::<char>::empty());
        assert(s + seq!['.'] + t =~= s.push('.'));
        assert(s.push('.').last() == '.');
        assert(split_dots(s.push('.')).len() > 0);
        assert(s.push('.').drop_last() =~= s);
    } else {
        lemma_split_after_dot(s, t.drop_last());
        let u = s + seq!['.'] + t;
        assert(u.drop_last() =~= s + seq!['.'] + t.drop_last());
        assert(u.last() == t.last());
        assert(t.drop_last().push(t.last()) =~= t);
        assert(split_dots(u) =~= split_dots(s).push(t));
    }
}

proof fn lemma_trim_around(pre: Seq<char>, body: Seq<char>, post: Seq<char>)
    requires
        forall|k: int| 0 <= k < pre.len() ==> is_ws(#[trigger] pre[k]),
        forall|k: int| 0 <= k < post.len() ==> is_ws(#[trigger] post[k]),
        body.len() > 0,
        !is_ws(body[0]),
        !is_ws(body.last()),
    ensures
        trim(pre + body + post) == body,
{
    let text = pre + body + post;
    assert forall|k: int| 0 <= k < pre.len() implies is_ws(#[trigger] text[k]) by {
        assert(text[k] == pre[k]);
    }
    lemma_trim_start_skip(text, pre.len() as int);
    let rest = text.skip(pre.len() as int);
    assert(rest =~= body + post);
    assert(rest[0] == body[0]);
    assert(trim_start(rest) == rest);
    assert forall|k: int| body.len() <= k < rest.len() implies is_ws(#[trigger] rest[k]) by {
        assert(rest[k] == post[k - body.len()]);
    }
    lemma_trim_end_take(rest, body.len() as int);
    assert(rest.take(body.len() as int) =~= body);
    assert(trim_end(body) == body);
}

proof fn lemma_version_text_parts(a: u32, b: u32, c: u32)
    ensures
        split_dots(version_text(a, b, c)) == seq![dec_digits(a as nat), dec_digits(b as nat), dec_digits(c as nat)],
        crate::text::is_digit(version_text(a, b, c)[0]),
        crate::text::is_digit(version_text(a, b, c).last()),
        parse_u32_spec(dec_digits(a as nat)) == Some(a),
        parse_u32_spec(dec_digits(b as nat)) == Some(b),
        parse_u32_spec(dec_digits(c as nat)) == Some(c),
{
    lemma_dec_digits_parse(a);
    lemma_dec_digits_parse(b);
    lemma_dec_digits_parse(c);
    let da = dec_digits(a as nat);
    let db = dec_digits(b as nat);
    let dc = dec_digits(c as nat);
    let core = version_text(a, b, c);
    assert(core[0] == da[0]);
    assert(core.last() == dc[dc.len() - 1]);
    lemma_split_no_dot(da);
    lemma_split_after_dot(da, db);
    lemma_split_after_dot(da + seq!['.'] + db, dc);
    assert(split_dots(core) =~= seq![da, db, dc]);
}

/// Rendering three numbers as `a.b.c` and reading the text back gives the numbers again,
/// with or without a leading `v` and whatever whitespace surrounds it.
pub proof fn law_version_round_trip(a: u32, b: u32, c: u32, pre: Seq<char>, post: Seq<char>, with_v: bool)
    requires
        forall|k: int| 0 <= k < pre.len() ==> is_ws(#[trigger] pre[k]),
        forall|k: int| 0 <= k < post.len() ==> is_ws(#[trigger] post[k]),
    ensures
        version_spec(pre + (if with_v { seq!['v'] } else { Seq::<char>::empty() }) + version_text(a, b, c) + post)
            == Some((a, b, c)),
{
    let core = version_text(a, b, c);
    let head: Seq<char> = if with_v { seq!['v'] } else { Seq::<char>::empty() };
    let body = head + core;
    lemma_version_text_parts(a, b, c);
    assert(body[0] == if with_v { 'v' } else { core[0] });
    assert(body.last() == core.last());
    lemma_trim_around(pre, body, post);
    if with_v {
        assert(body.drop_first() =~= core);
    } else {
        assert(body =~= core);
    }
    assert(strip_v(body) == core);
    let text = pre + head + core + post;
    assert(text =~= pre + body + post);
    assert(trim(text) == body);
    let parts = split_dots(strip_v(trim(text)));
    assert(parts == seq![dec_digits(a as nat), dec_digits(b as nat), dec_digits(c as nat)]);
    assert(parts[0] == dec_digits(a as nat));
    assert(parts[1] == dec_digits(b as nat));
    assert(parts[2] == dec_digits(c as nat));
}

} // verus!
