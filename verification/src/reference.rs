//! Reference tables of the game data (units, technologies, buildings, civilizations),
//! read from CSV text: for each numeric id, its name, its cost, and the id of the
//! building it belongs to.
use vstd::prelude::*;
use std::collections::HashMap;
use crate::replay::ResourceCost;
use crate::text::{chars_of, parse_u32, parse_u32_spec, trim, trim_chars};

verus! {

broadcast use vstd::std_specs::hash::group_hash_axioms;

/// The fields of a record, as character sequences.
pub open spec fn row_view(row: Vec<String>) -> Seq<Seq<char>> {
    row@.map_values(|f: String| f@)
}

/// The fields of each record, as character sequences.
pub open spec fn rows_view(rows: Seq<Vec<String>>) -> Seq<Seq<Seq<char>>> {
    rows.map_values(|row: Vec<String>| row_view(row))
}

/// The data records that the csv crate reads from `content` with a header row (which it
/// does not return) and records of varying length; `None` where it reports an error.
pub uninterp spec fn csv_data_records(content: Seq<char>) -> Option<Seq<Seq<Seq<char>>>>;

/// Calls `csv::ReaderBuilder` (with `flexible(true)`) and `Reader::records`, and collects
/// the fields of every record. Claims that the result is `csv_data_records` of the text.
#[verifier::external_body]
fn read_csv_records(content: &str) -> (r: Option<Vec<Vec<String>>>)
    ensures
        match r {
            Some(rows) => csv_data_records(content@) == Some(rows_view(rows@)),
            None => csv_data_records(content@) is None,
        },
{
    let mut reader = csv::ReaderBuilder::new().flexible(true).from_reader(content.as_bytes());
    let mut rows: Vec<Vec<String>> = Vec::new();
    for record in reader.records() {
        match record {
            Ok(rec) => rows.push(rec.iter().map(|f| f.to_string()).collect()),
            Err(_) => return None,
        }
    }
    Some(rows)
}

/// Which columns of a reference CSV hold what.
#[derive(Debug, Clone, Copy)]
pub struct CsvLayout {
    pub id_col: usize,
    pub name_col: usize,
    /// First of the cost columns (food, then wood, gold, stone), if the table has costs.
    pub cost_start_col: Option<usize>,
    /// Column of the id of the building the entry belongs to, if any.
    pub building_col: Option<usize>,
    /// How many cost columns there are (the others count as 0).
    pub num_costs: usize,
}

/// What a reference table says of its ids.
pub struct TableView {
    pub names: Map<u32, Seq<char>>,
    pub costs: Map<u32, ResourceCost>,
    pub buildings: Map<u32, u32>,
}

/// One reference table: per id, its name, its cost and its building.
#[derive(Debug, Clone)]
pub struct CsvTable {
    pub names: HashMap<u32, String>,
    pub costs: HashMap<u32, ResourceCost>,
    pub buildings: HashMap<u32, u32>,
}

/// The character sequences of a map's string values.
pub open spec fn strings_view<K>(m: Map<K, String>) -> Map<K, Seq<char>> {
    m.map_values(|s: String| s@)
}

impl View for CsvTable {
    type V = TableView;

    open spec fn view(&self) -> TableView {
        TableView {
            names: strings_view(self.names@),
            costs: self.costs@,
            buildings: self.buildings@,
        }
    }
}

/// Whether the row has a field at `col` that is not blank.
pub open spec fn field_present(row: Seq<Seq<char>>, col: int) -> bool {
    0 <= col < row.len() && trim(row[col]).len() > 0
}

/// The id of a row: its id field, when present and a number.
pub open spec fn row_id(row: Seq<Seq<char>>, id_col: int) -> Option<u32> {
    if field_present(row, id_col) {
        parse_u32_spec(row[id_col])
    } else {
        None
    }
}

/// A cost field: its number, or 0 where it is missing or not a number.
pub open spec fn cost_field(row: Seq<Seq<char>>, col: int) -> u32 {
    if 0 <= col < row.len() {
        match parse_u32_spec(row[col]) {
            Some(v) => v,
            None => 0,
        }
    } else {
        0
    }
}

/// The cost of a row: food, wood, gold and stone from consecutive columns, as many of
/// them as the table has.
pub open spec fn row_cost(row: Seq<Seq<char>>, start: int, num_costs: int) -> ResourceCost {
    ResourceCost {
        food: cost_field(row, start),
        wood: if num_costs > 1 { cost_field(row, start + 1) } else { 0 },
        gold: if num_costs > 2 { cost_field(row, start + 2) } else { 0 },
        stone: if num_costs > 3 { cost_field(row, start + 3) } else { 0 },
    }
}

/// The table after one more row: a row with an id sets the id's name (if the row has a
/// name field), its cost (if the table has costs) and its building (if that field holds a
/// number); rows without an id change nothing.
pub open spec fn table_step(t: TableView, row: Seq<Seq<char>>, layout: CsvLayout) -> TableView {
    match row_id(row, layout.id_col as int) {
        None => t,
        Some(id) => TableView {
            names: if layout.name_col < row.len() {
                t.names.insert(id, row[layout.name_col as int])
            } else {
                t.names
            },
            costs: match layout.cost_start_col {
                Some(s) => t.costs.insert(id, row_cost(row, s as int, layout.num_costs as int)),
                None => t.costs,
            },
            buildings: match layout.building_col {
                Some(c) => if field_present(row, c as int) {
                    match parse_u32_spec(row[c as int]) {
                        Some(b) => t.buildings.insert(id, b),
                        None => t.buildings,
                    }
                } else {
                    t.buildings
                },
                None => t.buildings,
            },
        },
    }
}

pub open spec fn empty_table() -> TableView {
    TableView { names: Map::empty(), costs: Map::empty(), buildings: Map::empty() }
}

/// The table that the rows give, later rows overriding earlier ones.
pub open spec fn table_of_rows(rows: Seq<Seq<Seq<char>>>, layout: CsvLayout) -> TableView
    decreases rows.len(),
{
    if rows.len() == 0 {
        empty_table()
    } else {
        table_step(table_of_rows(rows.drop_last(), layout), rows.last(), layout)
    }
}

/// Whether the cost columns that the layout reads have indices that fit in `usize`.
pub open spec fn layout_ok(layout: CsvLayout) -> bool {
    match layout.cost_start_col {
        Some(s) => s + if layout.num_costs > 3 {
            3int
        } else if layout.num_costs > 1 {
            layout.num_costs - 1
        } else {
            0
        } <= usize::MAX,
        None => true,
    }
}

/// Whether the field at `col` of the row is present and not blank.
fn field_is_present(row: &Vec<String>, col: usize) -> (b: bool)
    ensures
        b == field_present(row_view(*row), col as int),
{
    if col < row.len() {
        let cs = chars_of(row[col].as_str());
        let t = trim_chars(cs.as_slice());
        t.len() > 0
    } else {
        false
    }
}

/// The number in the field at `col`, if the row has that field and it parses.
fn field_number(row: &Vec<String>, col: usize) -> (r: Option<u32>)
    requires
        col < row.len(),
    ensures
        r == parse_u32_spec(row@[col as int]@),
{
    let cs = chars_of(row[col].as_str());
    parse_u32(cs.as_slice())
}

fn cost_number(row: &Vec<String>, col: usize) -> (v: u32)
    ensures
        v == cost_field(row_view(*row), col as int),
{
    if col < row.len() {
        match field_number(row, col) {
            Some(v) => v,
            None => 0,
        }
    } else {
        0
    }
}

/// Builds a reference table from data records: for each record whose id field is present
/// and numeric, its name, cost and building, later records overriding earlier ones.
pub fn table_from_records(rows: &Vec<Vec<String>>, layout: CsvLayout) -> (t: CsvTable)
    requires
        layout_ok(layout),
    ensures
        t@ == table_of_rows(rows_view(rows@), layout),
{
    let mut t = CsvTable { names: HashMap::new(), costs: HashMap::new(), buildings: HashMap::new() };
    proof {
        assert(rows_view(rows@.take(0)) =~= Seq::empty());
        assert(t@.names =~= Map::empty());
    }
    let mut i: usize = 0;
    while i < rows.len()
        invariant
            i <= rows@.len(),
            layout_ok(layout),
            t@ == table_of_rows(rows_view(rows@.take(i as int)), layout),
        decreases rows.len() - i,
    {
        let row = &rows[i];
        let ghost before = t@;
        let ghost rv = rows_view(rows@)[i as int];
        proof {
            assert(rows_view(rows@.take(i + 1)).drop_last() =~= rows_view(rows@.take(i as int)));
            assert(rows_view(rows@.take(i + 1)).last() == rv);
            assert(rv == row_view(*row));
        }
        let id = if field_is_present(row, layout.id_col) {
            field_number(row, layout.id_col)
        } else {
            None
        };
        assert(id == row_id(rv, layout.id_col as int));
        if let Some(id) = id {
            if layout.name_col < row.len() {
                t.names.insert(id, row[layout.name_col].clone());
            }
            if let Some(start) = layout.cost_start_col {
                let food = cost_number(row, start);
                let wood = if layout.num_costs > 1 { cost_number(row, start + 1) } else { 0 };
                let gold = if layout.num_costs > 2 { cost_number(row, start + 2) } else { 0 };
                let stone = if layout.num_costs > 3 { cost_number(row, start + 3) } else { 0 };
                t.costs.insert(id, ResourceCost { food, wood, gold, stone });
            }
            if let Some(col) = layout.building_col {
                if field_is_present(row, col) {
                    if let Some(b) = field_number(row, col) {
                        t.buildings.insert(id, b);
                    }
                }
            }
            proof {
                let want = table_step(before, rv, layout);
                assert(t@.names =~= want.names);
                assert(t@.costs =~= want.costs);
                assert(t@.buildings =~= want.buildings);
            }
        }
        i = i + 1;
    }
    assert(rows@.take(rows@.len() as int) =~= rows@);
    t
}

/// Reads a reference table from CSV text (with a header row): `Err` exactly where the csv
/// crate cannot read the text, and otherwise the table of its data records.
pub fn parse_csv_map(content: &str, layout: CsvLayout) -> (r: Result<CsvTable, String>)
    requires
        layout_ok(layout),
    ensures
        match csv_data_records(content@) {
            Some(rows) => r is Ok && r->Ok_0@ == table_of_rows(rows, layout),
            None => r is Err,
        },
{
    match read_csv_records(content) {
        Some(rows) => Ok(table_from_records(&rows, layout)),
        None => Err("reference data is not valid CSV".to_owned()),
    }
}

} // verus!
