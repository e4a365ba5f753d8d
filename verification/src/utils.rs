//! The plate, the canonical form of well names, and the frozen run parameters.

use crate::digits::{
    decimal, format_number, lemma_decimal_denotes, lemma_number_round_trip, parse_number,
    parse_u32,
};
use crate::names::{clone_names, contains_name, names_of};
use vstd::prelude::*;

verus! {

/// Rows of the default plate, lettered from `A`.
pub const PLATE_ROWS: usize = 16;

/// Columns of the default plate, numbered from 1.
pub const PLATE_COLUMNS: usize = 24;

/// Bin count of a run that names none.
pub const DEFAULT_NBINS: usize = 20;

/// The letter of plate row `r`, counted from 0.
pub open spec fn row_letter(r: int) -> char {
    ((65 + r) as u8) as char
}

/// The name of the `k`-th well of the default plate, row by row.
pub open spec fn plate_well(k: int) -> Seq<char> {
    seq![row_letter(k / 24)] + decimal((k % 24 + 1) as nat)
}

/// The default plate: `A1` to `A24`, then `B1`, and so on to `P24`.
pub open spec fn default_plate() -> Seq<Seq<char>> {
    Seq::new(384, |k: int| plate_well(k))
}

/// The canonical form of a well name: a name of two or more characters whose
/// tail reads as a number keeps its first character and gets the number's
/// shortest numeral; every other name stays as it is.
pub open spec fn clean_name(name: Seq<char>) -> Seq<char> {
    if name.len() >= 2 {
        match parse_u32(name.subrange(1, name.len() as int)) {
            Some(n) => seq![name[0]] + decimal(n as nat),
            None => name,
        }
    } else {
        name
    }
}

/// The texts of a list of blocks.
pub open spec fn blocks_of(v: Seq<Vec<String>>) -> Seq<Seq<Seq<char>>> {
    Seq::new(v.len(), |b: int| names_of(v[b]@))
}

/// Some block names `well`, once its names are brought to canonical form.
pub open spec fn referenced(blocks: Seq<Seq<Seq<char>>>, well: Seq<char>) -> bool {
    exists|b: int, i: int|
        0 <= b < blocks.len() && 0 <= i < blocks[b].len() && clean_name(#[trigger] blocks[b][i])
            == well
}

/// The plate wells that no block names, in plate order.
pub open spec fn unassigned_wells(plate: Seq<Seq<char>>, blocks: Seq<Seq<Seq<char>>>) -> Seq<
    Seq<char>,
> {
    plate.filter(|w: Seq<char>| !referenced(blocks, w))
}

/// The blocks a run scores: the whole plate where none were given, else the
/// given ones followed by the block of the wells they leave out.
pub open spec fn effective_blocks(
    plate: Seq<Seq<char>>,
    given: Option<Seq<Seq<Seq<char>>>>,
) -> Seq<Seq<Seq<char>>> {
    match given {
        Some(blocks) => blocks.push(unassigned_wells(plate, blocks)),
        None => seq![plate],
    }
}

/// A name in canonical form stays as it is: bringing names to canonical form
/// twice gives what doing so once gives.
pub proof fn lemma_clean_name_idempotent(name: Seq<char>)
    ensures
        clean_name(clean_name(name)) == clean_name(name),
{
    if name.len() >= 2 {
        match parse_u32(name.subrange(1, name.len() as int)) {
            Some(n) => {
                lemma_letter_and_numeral_is_canonical(name[0], n);
            },
            None => {},
        }
    }
}

/// A character followed by the numeral of a number is in canonical form.
pub proof fn lemma_letter_and_numeral_is_canonical(letter: char, n: u32)
    ensures
        clean_name(seq![letter] + decimal(n as nat)) == seq![letter] + decimal(n as nat),
{
    let name = seq![letter] + decimal(n as nat);
    lemma_decimal_denotes(n as nat);
    lemma_number_round_trip(n);
    assert(name.subrange(1, name.len() as int) =~= decimal(n as nat));
}

/// Every well of the default plate is named in canonical form.
pub proof fn lemma_default_plate_is_canonical(k: int)
    requires
        0 <= k < 384,
    ensures
        clean_name(default_plate()[k]) == default_plate()[k],
{
    lemma_letter_and_numeral_is_canonical(row_letter(k / 24), (k % 24 + 1) as u32);
}

/// The run parameters, fixed once made.
#[derive(Debug, Clone)]
pub struct UserConfig {
    pub path: String,
    pub id_cols: Vec<String>,
    pub useless_cols: Option<Vec<String>>,
    pub verbose: bool,
    pub block_def: Vec<Vec<String>>,
    pub plate_def: Vec<String>,
    pub vehicle_cntrls: Vec<String>,
    pub nbins: usize,
}

/// The one-letter text of plate row `r`.
fn row_text(r: usize) -> (t: &'static str)
    requires
        r < PLATE_ROWS,
    ensures
        t@ == seq![row_letter(r as int)],
{
    proof {
        reveal_strlit("A");
        reveal_strlit("B");
        reveal_strlit("C");
        reveal_strlit("D");
        reveal_strlit("E");
        reveal_strlit("F");
        reveal_strlit("G");
        reveal_strlit("H");
        reveal_strlit("I");
        reveal_strlit("J");
        reveal_strlit("K");
        reveal_strlit("L");
        reveal_strlit("M");
        reveal_strlit("N");
        reveal_strlit("O");
        reveal_strlit("P");
    }
    let t = if r == 0 {
        "A"
    } else if r == 1 {
        "B"
    } else if r == 2 {
        "C"
    } else if r == 3 {
        "D"
    } else if r == 4 {
        "E"
    } else if r == 5 {
        "F"
    } else if r == 6 {
        "G"
    } else if r == 7 {
        "H"
    } else if r == 8 {
        "I"
    } else if r == 9 {
        "J"
    } else if r == 10 {
        "K"
    } else if r == 11 {
        "L"
    } else if r == 12 {
        "M"
    } else if r == 13 {
        "N"
    } else if r == 14 {
        "O"
    } else {
        "P"
    };
    t
}

/// Enumerates the default plate of 384 wells.
pub fn plate_definition() -> (res: Vec<String>)
    ensures
        names_of(res@) == default_plate(),
{
    let mut res: Vec<String> = Vec::new();
    let mut row: usize = 0;
    while row < PLATE_ROWS
        invariant
            row <= PLATE_ROWS,
            res@.len() == row * 24,
            forall|k: int| 0 <= k < res@.len() ==> #[trigger] res@[k]@ == plate_well(k),
        decreases PLATE_ROWS - row,
    {
        let mut col: usize = 0;
        while col < PLATE_COLUMNS
            invariant
                row < PLATE_ROWS,
                col <= PLATE_COLUMNS,
                res@.len() == row * 24 + col,
                forall|k: int| 0 <= k < res@.len() ==> #[trigger] res@[k]@ == plate_well(k),
            decreases PLATE_COLUMNS - col,
        {
            let number: u32 = (col + 1) as u32;
            let mut name = String::from_str(row_text(row));
            let numeral = format_number(number);
            name.append(numeral.as_str());
            res.push(name);
            col = col + 1;
        }
        row = row + 1;
    }
    res
}

/// Brings one well name to canonical form.
pub fn clean_well_name(name: &String) -> (res: String)
    ensures
        res@ == clean_name(name@),
{
    let text = name.as_str();
    let n: usize = text.unicode_len();
    if n >= 2 {
        let tail = text.substring_char(1, n);
        match parse_number(tail) {
            Some(number) => {
                let mut res = String::from_str(text.substring_char(0, 1));
                let numeral = format_number(number);
                res.append(numeral.as_str());
                res
            },
            None => name.clone(),
        }
    } else {
        name.clone()
    }
}

/// Brings each well name to canonical form: `A01` becomes `A1`, `P24` stays.
pub fn clean_well_names(well_names: &[String]) -> (res: Vec<String>)
    ensures
        res@.len() == well_names@.len(),
        forall|i: int|
            0 <= i < well_names@.len() ==> #[trigger] res@[i]@ == clean_name(well_names@[i]@),
{
    let n: usize = well_names.len();
    let mut res: Vec<String> = Vec::new();
    let mut i: usize = 0;
    while i < n
        invariant
            i <= n,
            n == well_names@.len(),
            res@.len() == i,
            forall|j: int| 0 <= j < i ==> #[trigger] res@[j]@ == clean_name(well_names@[j]@),
        decreases n - i,
    {
        res.push(clean_well_name(&well_names[i]));
        i = i + 1;
    }
    res
}

/// Says whether some block names `well`, given the blocks in canonical form.
fn names_well(cleaned: &Vec<Vec<String>>, well: &String, Ghost(blocks): Ghost<
    Seq<Seq<Seq<char>>>,
>) -> (r: bool)
    requires
        cleaned@.len() == blocks.len(),
        forall|b: int|
            0 <= b < blocks.len() ==> (#[trigger] cleaned@[b])@.len() == blocks[b].len(),
        forall|b: int, i: int|
            0 <= b < blocks.len() && 0 <= i < blocks[b].len() ==> (#[trigger] cleaned@[b]@[i])@
                == clean_name(blocks[b][i]),
    ensures
        r == referenced(blocks, well@),
{
    let n: usize = cleaned.len();
    let mut b: usize = 0;
    while b < n
        invariant
            b <= n,
            n == cleaned@.len(),
            cleaned@.len() == blocks.len(),
            forall|c: int|
                0 <= c < blocks.len() ==> (#[trigger] cleaned@[c])@.len() == blocks[c].len(),
            forall|c: int, i: int|
                0 <= c < blocks.len() && 0 <= i < blocks[c].len() ==> (
                #[trigger] cleaned@[c]@[i])@ == clean_name(blocks[c][i]),
            forall|c: int, i: int|
                0 <= c < b && 0 <= i < blocks[c].len() ==> clean_name(#[trigger] blocks[c][i])
                    != well@,
        decreases n - b,
    {
        if contains_name(cleaned[b].as_slice(), well) {
            return true;
        }
        proof {
            let names = names_of(cleaned@[b as int]@);
            assert forall|i: int| 0 <= i < blocks[b as int].len() implies clean_name(
                #[trigger] blocks[b as int][i],
            ) != well@ by {
                assert(names[i] == cleaned@[b as int]@[i]@);
            }
        }
        b = b + 1;
    }
    false
}

impl UserConfig {
    /// Freezes the run parameters. A run that names no plate gets the default
    /// plate, one that names no bin count gets 20 bins, and the blocks are
    /// completed as `effective_blocks` says.
    pub fn new(
        path: &str,
        id_cols: Vec<String>,
        useless_cols: Option<Vec<String>>,
        verbose: bool,
        block_def: Option<Vec<Vec<String>>>,
        plate_def: Option<Vec<String>>,
        vehicle_cntrls: Vec<String>,
        nbins: Option<usize>,
    ) -> (res: Self)
        ensures
            res.path@ == path@,
            res.id_cols == id_cols,
            res.useless_cols == useless_cols,
            res.verbose == verbose,
            res.vehicle_cntrls == vehicle_cntrls,
            names_of(res.plate_def@) == match plate_def {
                Some(def) => names_of(def@),
                None => default_plate(),
            },
            res.nbins == match nbins {
                Some(bins) => bins,
                None => DEFAULT_NBINS,
            },
            blocks_of(res.block_def@) == effective_blocks(
                names_of(res.plate_def@),
                match block_def {
                    Some(def) => Some(blocks_of(def@)),
                    None => None,
                },
            ),
    {
        let plate_def = match plate_def {
            Some(def) => def,
            None => plate_definition(),
        };
        let nbins = match nbins {
            Some(bins) => bins,
            None => DEFAULT_NBINS,
        };
        let ghost plate = names_of(plate_def@);
        let block_def = match block_def {
            Some(def) => {
                let mut def = def;
                let ghost blocks = blocks_of(def@);
                let mut cleaned: Vec<Vec<String>> = Vec::new();
                let mut b: usize = 0;
                while b < def.len()
                    invariant
                        b <= def@.len(),
                        blocks == blocks_of(def@),
                        cleaned@.len() == b,
                        forall|c: int|
                            0 <= c < b ==> (#[trigger] cleaned@[c])@.len() == blocks[c].len(),
                        forall|c: int, i: int|
                            0 <= c < b && 0 <= i < blocks[c].len() ==> (
                            #[trigger] cleaned@[c]@[i])@ == clean_name(blocks[c][i]),
                    decreases def@.len() - b,
                {
                    let block = clean_well_names(def[b].as_slice());
                    cleaned.push(block);
                    b = b + 1;
                }
                let ghost keep = |w: Seq<char>| !referenced(blocks, w);
                let mut rest: Vec<String> = Vec::new();
                let mut k: usize = 0;
                while k < plate_def.len()
                    invariant
                        k <= plate_def@.len(),
                        plate == names_of(plate_def@),
                        blocks == blocks_of(def@),
                        keep == |w: Seq<char>| !referenced(blocks, w),
                        cleaned@.len() == blocks.len(),
                        forall|c: int|
                            0 <= c < blocks.len() ==> (#[trigger] cleaned@[c])@.len()
                                == blocks[c].len(),
                        forall|c: int, i: int|
                            0 <= c < blocks.len() && 0 <= i < blocks[c].len() ==> (
                            #[trigger] cleaned@[c]@[i])@ == clean_name(blocks[c][i]),
                        names_of(rest@) == plate.take(k as int).filter(keep),
                    decreases plate_def@.len() - k,
                {
                    let well = &plate_def[k];
                    proof {
                        plate.take(k as int).lemma_filter_push(well@, keep);
                        assert(plate.take(k as int).push(well@) =~= plate.take(k + 1));
                    }
                    if !names_well(&cleaned, well, Ghost(blocks)) {
                        rest.push(well.clone());
                    }
                    k = k + 1;
                }
                assert(plate.take(plate.len() as int) =~= plate);
                def.push(rest);
                def
            },
            None => {
                let whole = clone_names(plate_def.as_slice());
                let mut def: Vec<Vec<String>> = Vec::new();
                def.push(whole);
                def
            },
        };
        UserConfig {
            path: path.to_owned(),
            id_cols,
            useless_cols,
            verbose,
            block_def,
            plate_def,
            vehicle_cntrls,
            nbins,
        }
    }
}

} // verus!
