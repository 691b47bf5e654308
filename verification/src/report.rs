//! The chart series of the match report: one point per screen grab (time label, villager
//! counts, housing, floating flags, stockpiles) and the age-up clicks, each series as JSON.
use vstd::prelude::*;
use crate::analysis::floating::FloatingSegment;
use crate::replay::texts_view;
use crate::capture::join;
use crate::text::{chars_of, dec_digits, dec_padded, parse_u32, parse_u32_spec, push_decimal_padded, str_eq};
use crate::types::{MergedRow, is_screen_grab, is_rec_event};

verus! {

// ---------------------------------------------------------------------------
// JSON, through serde_json
// ---------------------------------------------------------------------------

/// A character inside a JSON string as serde_json writes it: `"` and `\` behind a
/// backslash; backspace, tab, line feed, form feed and carriage return as `\b`, `\t`,
/// `\n`, `\f`, `\r`; other characters below U+0020 as `\u00` and two lowercase hex
/// digits; anything else as it is.
pub open spec fn json_char(c: char) -> Seq<char> {
    if c == '"' {
        seq!['\\', '"']
    } else if c == '\\' {
        seq!['\\', '\\']
    } else if c == '\u{8}' {
        seq!['\\', 'b']
    } else if c == '\t' {
        seq!['\\', 't']
    } else if c == '\n' {
        seq!['\\', 'n']
    } else if c == '\u{c}' {
        seq!['\\', 'f']
    } else if c == '\r' {
        seq!['\\', 'r']
    } else if (c as u32) < 0x20 {
        seq!['\\', 'u', '0', '0', hex_digit((c as u32 / 16) as nat), hex_digit((c as u32 % 16) as nat)]
    } else {
        seq![c]
    }
}

/// A lowercase hexadecimal digit.
pub open spec fn hex_digit(d: nat) -> char {
    if d < 10 {
        ('0' as int + d) as char
    } else {
        ('a' as int + d - 10) as char
    }
}

/// The characters of `s`, each as inside a JSON string.
pub open spec fn json_escaped(s: Seq<char>) -> Seq<char>
    decreases s.len(),
{
    if s.len() == 0 {
        Seq::empty()
    } else {
        json_escaped(s.drop_last()) + json_char(s.last())
    }
}

/// `s` as a JSON string.
pub open spec fn json_string(s: Seq<char>) -> Seq<char> {
    seq!['"'] + json_escaped(s) + seq!['"']
}

/// The JSON text of a list of strings: each as a JSON string, joined by commas, in
/// brackets (serde_json's compact form).
pub open spec fn texts_json(items: Seq<Seq<char>>) -> Seq<char> {
    "["@ + join(items.map_values(|t: Seq<char>| json_string(t)), ","@) + "]"@
}

/// `a` comes before `b` in the order of their characters' code points (the order of
/// `String`s, whose UTF-8 bytes compare the same way).
pub open spec fn text_lt(a: Seq<char>, b: Seq<char>) -> bool
    decreases a.len(),
{
    if a.len() == 0 {
        b.len() > 0
    } else if b.len() == 0 {
        false
    } else if a[0] != b[0] {
        (a[0] as u32) < (b[0] as u32)
    } else {
        text_lt(a.drop_first(), b.drop_first())
    }
}

/// A JSON object with the string `v1` under key `k1` and `v2` under `k2`, keys in order
/// (serde_json's default `Map` is ordered by key; a repeated key keeps the later value).
pub open spec fn pair_object(k1: Seq<char>, k2: Seq<char>, v1: Seq<char>, v2: Seq<char>) -> Seq<char> {
    let entry1 = json_string(k1) + ":"@ + json_string(v1);
    let entry2 = json_string(k2) + ":"@ + json_string(v2);
    if k1 == k2 {
        "{"@ + json_string(k1) + ":"@ + json_string(v2) + "}"@
    } else if text_lt(k2, k1) {
        "{"@ + entry2 + ","@ + entry1 + "}"@
    } else {
        "{"@ + entry1 + ","@ + entry2 + "}"@
    }
}

/// The JSON text of a list of such objects, joined by commas, in brackets.
pub open spec fn records_json(k1: Seq<char>, k2: Seq<char>, items: Seq<(Seq<char>, Seq<char>)>) -> Seq<char> {
    "["@ + join(items.map_values(|p: (Seq<char>, Seq<char>)| pair_object(k1, k2, p.0, p.1)), ","@) + "]"@
}

/// The JSON text of a list of optional counts: each count in decimal or `null`, joined by
/// commas, in brackets (serde_json's compact form).
pub open spec fn counts_json(items: Seq<Option<u32>>) -> Seq<char> {
    "["@ + join(
        items.map_values(
            |x: Option<u32>|
                match x {
                    Some(n) => dec_digits(n as nat),
                    None => "null"@,
                },
        ),
        ","@,
    ) + "]"@
}

/// The JSON text of a list of booleans: `true` or `false` each, joined by commas, in
/// brackets (serde_json's compact form).
pub open spec fn flags_json(items: Seq<bool>) -> Seq<char> {
    "["@ + join(items.map_values(|b: bool| if b { "true"@ } else { "false"@ }), ","@) + "]"@
}

pub open spec fn opt_text(o: Option<String>) -> Option<Seq<char>> {
    match o {
        Some(s) => Some(s@),
        None => None,
    }
}

/// Calls `serde_json::to_string` on the list, which cannot fail for strings. Claims that
/// the text is `texts_json` of the strings.
#[verifier::external_body]
fn texts_to_json(items: &Vec<String>) -> (r: Option<String>)
    ensures
        opt_text(r) == Some(texts_json(texts_view(items@))),
{
    serde_json::to_string(items).ok()
}

/// Calls `serde_json::to_string` on the list, which cannot fail for counts. Claims that
/// the text is `counts_json` of the list.
#[verifier::external_body]
fn counts_to_json(items: &Vec<Option<u32>>) -> (r: Option<String>)
    ensures
        opt_text(r) == Some(counts_json(items@)),
{
    serde_json::to_string(items).ok()
}

/// Calls `serde_json::to_string` on the list, which cannot fail for booleans. Claims that
/// the text is `flags_json` of the list.
#[verifier::external_body]
fn flags_to_json(items: &Vec<bool>) -> (r: Option<String>)
    ensures
        opt_text(r) == Some(flags_json(items@)),
{
    serde_json::to_string(items).ok()
}

pub open spec fn pairs_view(items: Seq<(String, String)>) -> Seq<(Seq<char>, Seq<char>)> {
    items.map_values(|p: (String, String)| (p.0@, p.1@))
}

/// Builds a `serde_json::Value` object per pair (keys `k1` and `k2`) and calls
/// `serde_json::to_string` on the list, which cannot fail for string objects. Claims that
/// the text is `records_json` of the keys and pairs.
#[verifier::external_body]
fn records_to_json(k1: &str, k2: &str, items: &Vec<(String, String)>) -> (r: Option<String>)
    ensures
        opt_text(r) == Some(records_json(k1@, k2@, pairs_view(items@))),
{
    let objects: Vec<serde_json::Value> = items.iter().map(|(a, b)| {
        let mut m = serde_json::Map::new();
        m.insert(k1.to_string(), serde_json::Value::String(a.clone()));
        m.insert(k2.to_string(), serde_json::Value::String(b.clone()));
        serde_json::Value::Object(m)
    }).collect();
    serde_json::to_string(&objects).ok()
}

/// The JSON text, or an empty list where there is none.
pub open spec fn json_or_empty(o: Option<Seq<char>>) -> Seq<char> {
    match o {
        Some(s) => s,
        None => "[]"@,
    }
}

fn or_empty(o: Option<String>) -> (s: String)
    ensures
        s@ == json_or_empty(opt_text(o)),
{
    match o {
        Some(s) => s,
        None => "[]".to_owned(),
    }
}

// ---------------------------------------------------------------------------
// The series
// ---------------------------------------------------------------------------

/// `mm:ss` for an in-game time (the time label without milliseconds).
pub open spec fn short_time_spec(ms: u64) -> Seq<char> {
    dec_padded((ms / 60000) as nat, 2) + seq![':'] + dec_padded(((ms % 60000) / 1000) as nat, 2)
}

pub fn short_time(ms: u64) -> (s: String)
    ensures
        s@ == short_time_spec(ms),
{
    let mut s = String::new();
    push_decimal_padded(&mut s, (ms / 60000) as u128, 2);
    s.push(':');
    push_decimal_padded(&mut s, ((ms % 60000) / 1000) as u128, 2);
    assert(s@ =~= short_time_spec(ms));
    s
}

pub open spec fn starts_with(s: Seq<char>, p: Seq<char>) -> bool {
    s.len() >= p.len() && s.take(p.len() as int) == p
}

pub open spec fn ends_with(s: Seq<char>, p: Seq<char>) -> bool {
    s.len() >= p.len() && s.skip(s.len() - p.len()) == p
}

/// `s` with every occurrence of `p` removed, scanning left to right (what
/// `str::replace(p, "")` gives).
pub open spec fn remove_all(s: Seq<char>, p: Seq<char>) -> Seq<char>
    decreases s.len(),
{
    if s.len() == 0 {
        s
    } else if p.len() > 0 && starts_with(s, p) {
        remove_all(s.skip(p.len() as int), p)
    } else {
        seq![s[0]] + remove_all(s.skip(1), p)
    }
}

/// Whether a row is an age-up click: a replay event `Research … Age`.
pub open spec fn is_age_up_event(r: MergedRow) -> bool {
    is_rec_event(r) && starts_with(r.event_desc@, "Research "@) && ends_with(r.event_desc@, " Age"@)
}

/// The point of an age-up click: its time label, and the age name followed by ` queued`.
pub open spec fn age_up_point(r: MergedRow) -> (Seq<char>, Seq<char>) {
    (short_time_spec(r.in_game_ms), remove_all(r.event_desc@, "Research "@) + " queued"@)
}

/// Whether a floating segment of `resource` covers time `ms` (both ends included).
pub open spec fn floating_at(segs: Seq<FloatingSegment>, resource: Seq<char>, ms: u64) -> bool {
    exists|k: int| 0 <= k < segs.len() && (#[trigger] segs[k]).resource@ == resource && segs[k].start_ms <= ms <= segs[k].end_ms
}

/// What one screen grab contributes to each series.
pub struct GrabPoint {
    pub label: Seq<char>,
    pub pop_vils: Option<u32>,
    pub idle_vils: Option<u32>,
    pub housed: bool,
    pub floating: (bool, bool, bool, bool),
    pub stock: (Option<u32>, Option<u32>, Option<u32>, Option<u32>),
}

pub open spec fn grab_point(r: MergedRow, segs: Seq<FloatingSegment>) -> GrabPoint {
    let ms = r.in_game_ms;
    GrabPoint {
        label: short_time_spec(ms),
        pop_vils: parse_u32_spec(r.pop_vils@),
        idle_vils: parse_u32_spec(r.idle_vils@),
        housed: r.housing@ == "housed"@,
        floating: (
            floating_at(segs, "Food"@, ms),
            floating_at(segs, "Wood"@, ms),
            floating_at(segs, "Gold"@, ms),
            floating_at(segs, "Stone"@, ms),
        ),
        stock: (
            parse_u32_spec(r.food@),
            parse_u32_spec(r.wood@),
            parse_u32_spec(r.gold@),
            parse_u32_spec(r.stone@),
        ),
    }
}

/// The floating flags of a screen grab: the food, wood, gold and stone flag is set exactly
/// when a floating segment of that resource (named `Food`, `Wood`, `Gold`, `Stone`) covers
/// the grab's time, both ends included.
pub proof fn law_floating_flags(r: MergedRow, segs: Seq<FloatingSegment>)
    ensures
        grab_point(r, segs).floating.0 <==> exists|k: int| 0 <= k < segs.len() && (#[trigger] segs[k]).resource@ == "Food"@
            && segs[k].start_ms <= r.in_game_ms && r.in_game_ms <= segs[k].end_ms,
        grab_point(r, segs).floating.1 <==> exists|k: int| 0 <= k < segs.len() && (#[trigger] segs[k]).resource@ == "Wood"@
            && segs[k].start_ms <= r.in_game_ms && r.in_game_ms <= segs[k].end_ms,
        grab_point(r, segs).floating.2 <==> exists|k: int| 0 <= k < segs.len() && (#[trigger] segs[k]).resource@ == "Gold"@
            && segs[k].start_ms <= r.in_game_ms && r.in_game_ms <= segs[k].end_ms,
        grab_point(r, segs).floating.3 <==> exists|k: int| 0 <= k < segs.len() && (#[trigger] segs[k]).resource@ == "Stone"@
            && segs[k].start_ms <= r.in_game_ms && r.in_game_ms <= segs[k].end_ms,
{
}

/// The stockpile series of a screen grab: food, wood, gold and stone, each the row's own
/// reading where it parses as a number.
pub proof fn law_stock_columns(r: MergedRow, segs: Seq<FloatingSegment>)
    ensures
        grab_point(r, segs).stock == (
            parse_u32_spec(r.food@),
            parse_u32_spec(r.wood@),
            parse_u32_spec(r.gold@),
            parse_u32_spec(r.stone@),
        ),
{
}

/// The other series of a screen grab: its `mm:ss` time label, the villager count and
/// idle-villager count read from the row (where they parse as numbers), and the housed flag,
/// set exactly when the row's housing reading is `housed`.
pub proof fn law_grab_readings(r: MergedRow, segs: Seq<FloatingSegment>)
    ensures
        grab_point(r, segs).label == short_time_spec(r.in_game_ms),
        grab_point(r, segs).pop_vils == parse_u32_spec(r.pop_vils@),
        grab_point(r, segs).idle_vils == parse_u32_spec(r.idle_vils@),
        grab_point(r, segs).housed <==> r.housing@ == "housed"@,
{
}

pub open spec fn grab_fn(segs: Seq<FloatingSegment>) -> spec_fn(MergedRow) -> Option<GrabPoint> {
    |r: MergedRow| if is_screen_grab(r) { Some(grab_point(r, segs)) } else { None }
}

pub open spec fn age_up_fn() -> spec_fn(MergedRow) -> Option<(Seq<char>, Seq<char>)> {
    |r: MergedRow| if !is_screen_grab(r) && is_age_up_event(r) { Some(age_up_point(r)) } else { None }
}

/// The points of the screen grabs, in order.
pub open spec fn grab_points(rows: Seq<MergedRow>, segs: Seq<FloatingSegment>) -> Seq<GrabPoint> {
    rows.filter_map(grab_fn(segs))
}

/// The age-up clicks, in order (rows that are screen grabs are never clicks).
pub open spec fn age_up_points(rows: Seq<MergedRow>) -> Seq<(Seq<char>, Seq<char>)> {
    rows.filter_map(age_up_fn())
}

/// The report's chart series, each as JSON text.
#[derive(Debug, Clone)]
pub struct ChartData {
    pub time_labels_json: String,
    pub pop_vils_json: String,
    pub idle_vils_json: String,
    pub housed_flags_json: String,
    /// A list of `{"age": …, "label": …}`.
    pub age_ups_json: String,
    pub floating_food_json: String,
    pub floating_wood_json: String,
    pub floating_gold_json: String,
    pub floating_stone_json: String,
    pub resource_food_json: String,
    pub resource_wood_json: String,
    pub resource_gold_json: String,
    pub resource_stone_json: String,
}

// ---------------------------------------------------------------------------
// Building the series
// ---------------------------------------------------------------------------

fn starts_with_chars(s: &Vec<char>, p: &Vec<char>, at: usize) -> (b: bool)
    requires
        at <= s@.len(),
    ensures
        b == starts_with(s@.skip(at as int), p@),
{
    if s.len() - at < p.len() {
        return false;
    }
    let mut k: usize = 0;
    while k < p.len()
        invariant
            k <= p@.len(),
            at + p@.len() <= s@.len(),
            s@.len() <= usize::MAX,
            forall|j: int| 0 <= j < k ==> s@[at + j] == p@[j],
        decreases p.len() - k,
    {
        if s[at + k] != p[k] {
            assert(s@.skip(at as int).take(p@.len() as int)[k as int] != p@[k as int]);
            return false;
        }
        k = k + 1;
    }
    assert(s@.skip(at as int).take(p@.len() as int) =~= p@);
    true
}

pub(crate) fn ends_with_chars(s: &Vec<char>, p: &Vec<char>) -> (b: bool)
    ensures
        b == ends_with(s@, p@),
{
    if s.len() < p.len() {
        return false;
    }
    let at = s.len() - p.len();
    let r = starts_with_chars(s, p, at);
    proof {
        assert(s@.skip(at as int).take(p@.len() as int) =~= s@.skip(at as int));
    }
    r
}

/// `s` with every occurrence of `p` removed.
fn remove_all_chars(s: &Vec<char>, p: &Vec<char>) -> (r: Vec<char>)
    ensures
        r@ == remove_all(s@, p@),
{
    let mut out: Vec<char> = Vec::new();
    let mut i: usize = 0;
    assert(s@.skip(0) =~= s@);
    assert(out@ + remove_all(s@, p@) =~= remove_all(s@, p@));
    while i < s.len()
        invariant
            i <= s@.len(),
            out@ + remove_all(s@.skip(i as int), p@) == remove_all(s@, p@),
        decreases s.len() - i,
    {
        let ghost rest = s@.skip(i as int);
        if p.len() > 0 && starts_with_chars(s, p, i) {
            proof {
                assert(rest.skip(p@.len() as int) =~= s@.skip(i + p@.len()));
            }
            i = i + p.len();
        } else {
            out.push(s[i]);
            proof {
                assert(rest.skip(1) =~= s@.skip(i + 1));
                assert(rest[0] == s@[i as int]);
                assert(out@ + remove_all(s@.skip(i + 1), p@) =~= out@.drop_last() + (seq![s@[i as int]] + remove_all(rest.skip(1), p@)));
            }
            i = i + 1;
        }
    }
    assert(s@.skip(i as int) =~= Seq::<char>::empty());
    assert(out@ + remove_all(s@.skip(i as int), p@) =~= out@);
    out
}

fn number_of(s: &String) -> (r: Option<u32>)
    ensures
        r == parse_u32_spec(s@),
{
    let cs = chars_of(s.as_str());
    parse_u32(cs.as_slice())
}

fn floating_at_exec(segs: &[FloatingSegment], resource: &str, ms: u64) -> (b: bool)
    ensures
        b == floating_at(segs@, resource@, ms),
{
    for k in 0..segs.len()
        invariant
            forall|j: int| 0 <= j < k ==> !((#[trigger] segs@[j]).resource@ == resource@ && segs@[j].start_ms <= ms <= segs@[j].end_ms),
    {
        if str_eq(segs[k].resource.as_str(), resource) && segs[k].start_ms <= ms && ms <= segs[k].end_ms {
            assert(segs@[k as int].resource@ == resource@);
            return true;
        }
    }
    false
}

/// The series built so far.
struct Series {
    labels: Vec<String>,
    pop_vils: Vec<Option<u32>>,
    idle_vils: Vec<Option<u32>>,
    housed: Vec<bool>,
    f_food: Vec<bool>,
    f_wood: Vec<bool>,
    f_gold: Vec<bool>,
    f_stone: Vec<bool>,
    r_food: Vec<Option<u32>>,
    r_wood: Vec<Option<u32>>,
    r_gold: Vec<Option<u32>>,
    r_stone: Vec<Option<u32>>,
}

impl Series {
    /// Each series holds, at each position, its field of the point there.
    spec fn holds(&self, pts: Seq<GrabPoint>) -> bool {
        &&& self.labels@.len() == pts.len()
        &&& self.pop_vils@.len() == pts.len()
        &&& self.idle_vils@.len() == pts.len()
        &&& self.housed@.len() == pts.len()
        &&& self.f_food@.len() == pts.len()
        &&& self.f_wood@.len() == pts.len()
        &&& self.f_gold@.len() == pts.len()
        &&& self.f_stone@.len() == pts.len()
        &&& self.r_food@.len() == pts.len()
        &&& self.r_wood@.len() == pts.len()
        &&& self.r_gold@.len() == pts.len()
        &&& self.r_stone@.len() == pts.len()
        &&& forall|k: int| 0 <= k < pts.len() ==> {
            &&& (#[trigger] pts[k]).label == self.labels@[k]@
            &&& pts[k].pop_vils == self.pop_vils@[k]
            &&& pts[k].idle_vils == self.idle_vils@[k]
            &&& pts[k].housed == self.housed@[k]
            &&& pts[k].floating == (self.f_food@[k], self.f_wood@[k], self.f_gold@[k], self.f_stone@[k])
            &&& pts[k].stock == (self.r_food@[k], self.r_wood@[k], self.r_gold@[k], self.r_stone@[k])
        }
    }

    fn add(&mut self, r: &MergedRow, segs: &[FloatingSegment], Ghost(pts): Ghost<Seq<GrabPoint>>)
        requires
            old(self).holds(pts),
        ensures
            final(self).holds(pts.push(grab_point(*r, segs@))),
    {
        let ms = r.in_game_ms;
        self.labels.push(short_time(ms));
        self.pop_vils.push(number_of(&r.pop_vils));
        self.idle_vils.push(number_of(&r.idle_vils));
        self.housed.push(str_eq(r.housing.as_str(), "housed"));
        self.f_food.push(floating_at_exec(segs, "Food", ms));
        self.f_wood.push(floating_at_exec(segs, "Wood", ms));
        self.f_gold.push(floating_at_exec(segs, "Gold", ms));
        self.f_stone.push(floating_at_exec(segs, "Stone", ms));
        self.r_food.push(number_of(&r.food));
        self.r_wood.push(number_of(&r.wood));
        self.r_gold.push(number_of(&r.gold));
        self.r_stone.push(number_of(&r.stone));
        let ghost np = pts.push(grab_point(*r, segs@));
        assert forall|k: int| 0 <= k < np.len() implies {
            &&& (#[trigger] np[k]).label == self.labels@[k]@
            &&& np[k].pop_vils == self.pop_vils@[k]
            &&& np[k].idle_vils == self.idle_vils@[k]
            &&& np[k].housed == self.housed@[k]
            &&& np[k].floating == (self.f_food@[k], self.f_wood@[k], self.f_gold@[k], self.f_stone@[k])
            &&& np[k].stock == (self.r_food@[k], self.r_wood@[k], self.r_gold@[k], self.r_stone@[k])
        } by {
            if k < pts.len() {
                assert(np[k] == pts[k]);
            }
        }
    }
}

/// The chart series of a stream, one point per screen grab (in order): its `mm:ss` label,
/// the villager and idle counts and stockpiles that parse as numbers (`null` otherwise),
/// whether it shows "housed", and whether a floating segment of each resource covers its
/// time; and one point per age-up click, with its label and `<age> queued`. Each series is
/// the JSON that serde_json writes for it, or `[]` where it writes none.
pub fn extract_chart_data(rows: &[MergedRow], segments: &[FloatingSegment]) -> (c: ChartData)
    ensures
        c.time_labels_json@ == texts_json(grab_points(rows@, segments@).map_values(|p: GrabPoint| p.label)),
        c.pop_vils_json@ == counts_json(grab_points(rows@, segments@).map_values(|p: GrabPoint| p.pop_vils)),
        c.idle_vils_json@ == counts_json(grab_points(rows@, segments@).map_values(|p: GrabPoint| p.idle_vils)),
        c.housed_flags_json@ == flags_json(grab_points(rows@, segments@).map_values(|p: GrabPoint| p.housed)),
        c.age_ups_json@ == records_json("label"@, "age"@, age_up_points(rows@)),
        c.floating_food_json@ == flags_json(grab_points(rows@, segments@).map_values(|p: GrabPoint| p.floating.0)),
        c.floating_wood_json@ == flags_json(grab_points(rows@, segments@).map_values(|p: GrabPoint| p.floating.1)),
        c.floating_gold_json@ == flags_json(grab_points(rows@, segments@).map_values(|p: GrabPoint| p.floating.2)),
        c.floating_stone_json@ == flags_json(grab_points(rows@, segments@).map_values(|p: GrabPoint| p.floating.3)),
        c.resource_food_json@ == counts_json(grab_points(rows@, segments@).map_values(|p: GrabPoint| p.stock.0)),
        c.resource_wood_json@ == counts_json(grab_points(rows@, segments@).map_values(|p: GrabPoint| p.stock.1)),
        c.resource_gold_json@ == counts_json(grab_points(rows@, segments@).map_values(|p: GrabPoint| p.stock.2)),
        c.resource_stone_json@ == counts_json(grab_points(rows@, segments@).map_values(|p: GrabPoint| p.stock.3)),
{
    let mut se = Series {
        labels: Vec::new(),
        pop_vils: Vec::new(),
        idle_vils: Vec::new(),
        housed: Vec::new(),
        f_food: Vec::new(),
        f_wood: Vec::new(),
        f_gold: Vec::new(),
        f_stone: Vec::new(),
        r_food: Vec::new(),
        r_wood: Vec::new(),
        r_gold: Vec::new(),
        r_stone: Vec::new(),
    };
    let mut ages: Vec<(String, String)> = Vec::new();
    let prefix = chars_of("Research ");
    let suffix = chars_of(" Age");
    let queued = chars_of(" queued");
    proof {
        assert(rows@.take(0) =~= Seq::<MergedRow>::empty());
        assert(pairs_view(ages@) =~= Seq::empty());
    }
    for i in 0..rows.len()
        invariant
            prefix@ == "Research "@,
            suffix@ == " Age"@,
            queued@ == " queued"@,
            se.holds(grab_points(rows@.take(i as int), segments@)),
            pairs_view(ages@) == age_up_points(rows@.take(i as int)),
    {
        let r = &rows[i];
        let ghost pts = grab_points(rows@.take(i as int), segments@);
        proof {
            rows@.lemma_filter_map_take_succ(grab_fn(segments@), i as int);
            rows@.lemma_filter_map_take_succ(age_up_fn(), i as int);
        }
        if str_eq(r.observation_type.as_str(), "ScreenGrab") {
            se.add(r, segments, Ghost(pts));
            assert(grab_points(rows@.take(i + 1), segments@) =~= pts.push(grab_point(*r, segments@)));
            assert(age_up_points(rows@.take(i + 1)) =~= age_up_points(rows@.take(i as int)));
        } else {
            assert(grab_points(rows@.take(i + 1), segments@) =~= pts);
            let desc = chars_of(r.event_desc.as_str());
            if str_eq(r.observation_type.as_str(), "RecEvent") && starts_with_chars(&desc, &prefix, 0) && ends_with_chars(&desc, &suffix) {
                proof {
                    assert(desc@.skip(0) =~= desc@);
                }
                let rest = remove_all_chars(&desc, &prefix);
                let mut age = crate::text::string_of(rest.as_slice());
                for k in 0..queued.len()
                    invariant
                        age@ == rest@ + queued@.take(k as int),
                {
                    age.push(queued[k]);
                    assert(queued@.take(k + 1) =~= queued@.take(k as int).push(queued@[k as int]));
                }
                assert(queued@.take(queued@.len() as int) =~= queued@);
                let label = short_time(r.in_game_ms);
                let ghost before = ages@;
                ages.push((label, age));
                proof {
                    assert(pairs_view(ages@) =~= pairs_view(before).push(age_up_point(*r)));
                }
            } else {
                proof {
                    assert(desc@.skip(0) =~= desc@);
                }
                assert(age_up_points(rows@.take(i + 1)) =~= age_up_points(rows@.take(i as int)));
            }
        }
    }
    let ghost pts = grab_points(rows@.take(rows@.len() as int), segments@);
    proof {
        assert(rows@.take(rows@.len() as int) =~= rows@);
        assert(texts_view(se.labels@) =~= pts.map_values(|p: GrabPoint| p.label));
        assert(se.pop_vils@ =~= pts.map_values(|p: GrabPoint| p.pop_vils));
        assert(se.idle_vils@ =~= pts.map_values(|p: GrabPoint| p.idle_vils));
        assert(se.housed@ =~= pts.map_values(|p: GrabPoint| p.housed));
        assert(se.f_food@ =~= pts.map_values(|p: GrabPoint| p.floating.0));
        assert(se.f_wood@ =~= pts.map_values(|p: GrabPoint| p.floating.1));
        assert(se.f_gold@ =~= pts.map_values(|p: GrabPoint| p.floating.2));
        assert(se.f_stone@ =~= pts.map_values(|p: GrabPoint| p.floating.3));
        assert(se.r_food@ =~= pts.map_values(|p: GrabPoint| p.stock.0));
        assert(se.r_wood@ =~= pts.map_values(|p: GrabPoint| p.stock.1));
        assert(se.r_gold@ =~= pts.map_values(|p: GrabPoint| p.stock.2));
        assert(se.r_stone@ =~= pts.map_values(|p: GrabPoint| p.stock.3));
    }
    ChartData {
        time_labels_json: or_empty(texts_to_json(&se.labels)),
        pop_vils_json: or_empty(counts_to_json(&se.pop_vils)),
        idle_vils_json: or_empty(counts_to_json(&se.idle_vils)),
        housed_flags_json: or_empty(flags_to_json(&se.housed)),
        age_ups_json: or_empty(records_to_json("label", "age", &ages)),
        floating_food_json: or_empty(flags_to_json(&se.f_food)),
        floating_wood_json: or_empty(flags_to_json(&se.f_wood)),
        floating_gold_json: or_empty(flags_to_json(&se.f_gold)),
        floating_stone_json: or_empty(flags_to_json(&se.f_stone)),
        resource_food_json: or_empty(counts_to_json(&se.r_food)),
        resource_wood_json: or_empty(counts_to_json(&se.r_wood)),
        resource_gold_json: or_empty(counts_to_json(&se.r_gold)),
        resource_stone_json: or_empty(counts_to_json(&se.r_stone)),
    }
}

} // verus!
