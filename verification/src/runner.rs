//! What the program around the puzzles works out: the names of its
//! files, the text of the source of a new day, and which puzzles to run.

use crate::text::{
    bytes_of, copy_bytes, decimal, decimal_string, lines, push_char, rows_view, split_at_word,
    split_lines, split_on,
};
use vstd::prelude::*;
use vstd::string::*;

verus! {

/// The year of the puzzles that the program runs.
pub const YEAR: u16 = 2023;

/// A number in two figures at least.
pub open spec fn two_figures(n: nat) -> Seq<char> {
    if n < 10 {
        seq!['0'] + decimal(n)
    } else {
        decimal(n)
    }
}

/// The name of the file that holds the input of a day, or its example.
pub open spec fn input_path_of(year: nat, day: nat, example: bool) -> Seq<char> {
    "inputs/"@ + decimal(year) + "-"@ + two_figures(day) + if example {
        "-example"@
    } else {
        Seq::<char>::empty()
    } + ".txt"@
}

pub fn input_path(year: u16, day: u8, example: bool) -> (s: String)
    ensures
        s@ == input_path_of(year as nat, day as nat, example),
{
    let mut s = String::new();
    s.append("inputs/");
    s.append(decimal_string(year as u128).as_str());
    s.append("-");
    if day < 10 {
        push_char(&mut s, '0');
    }
    s.append(decimal_string(day as u128).as_str());
    if example {
        s.append("-example");
    }
    s.append(".txt");
    proof {
        assert(s@ =~= input_path_of(year as nat, day as nat, example));
    }
    s
}

/// The name of the source file of a day.
pub open spec fn source_path_of(day: nat) -> Seq<char> {
    "src/day"@ + decimal(day) + ".rs"@
}

pub fn source_path(day: u8) -> (s: String)
    ensures
        s@ == source_path_of(day as nat),
{
    let mut s = String::new();
    s.append("src/day");
    s.append(decimal_string(day as u128).as_str());
    s.append(".rs");
    proof {
        assert(s@ =~= source_path_of(day as nat));
    }
    s
}

/// The address of the input of a day.
pub open spec fn input_url_of(day: nat) -> Seq<char> {
    "https://adventofcode.com/2023/day/"@ + decimal(day) + "/input"@
}

pub fn input_url(day: u8) -> (s: String)
    ensures
        s@ == input_url_of(day as nat),
{
    let mut s = String::new();
    s.append("https://adventofcode.com/2023/day/");
    s.append(decimal_string(day as u128).as_str());
    s.append("/input");
    proof {
        assert(s@ =~= input_url_of(day as nat));
    }
    s
}

/// The entry of a day in the list of the days that the program runs.
pub open spec fn entry_of(day: nat) -> Seq<char> {
    "Box::new(day"@ + decimal(day) + "::Day"@ + decimal(day) + ")"@
}

pub fn entry(day: u8) -> (s: String)
    ensures
        s@ == entry_of(day as nat),
{
    let mut s = String::new();
    s.append("Box::new(day");
    s.append(decimal_string(day as u128).as_str());
    s.append("::Day");
    s.append(decimal_string(day as u128).as_str());
    s.append(")");
    proof {
        assert(s@ =~= entry_of(day as nat));
    }
    s
}

/// The line that declares the module of a day.
pub open spec fn module_line_of(day: nat) -> Seq<char> {
    "mod day"@ + decimal(day) + ";"@
}

pub fn module_line(day: u8) -> (s: String)
    ensures
        s@ == module_line_of(day as nat),
{
    let mut s = String::new();
    s.append("mod day");
    s.append(decimal_string(day as u128).as_str());
    s.append(";");
    proof {
        assert(s@ =~= module_line_of(day as nat));
    }
    s
}

/// The first `n` pieces, with `sep` between them.
pub open spec fn joined(parts: Seq<Seq<u8>>, sep: Seq<u8>, n: int) -> Seq<u8>
    decreases n,
{
    if n <= 0 || n > parts.len() {
        Seq::empty()
    } else if n == 1 {
        parts[0]
    } else {
        joined(parts, sep, n - 1) + sep + parts[n - 1]
    }
}

/// The text with `to` wherever `from` stands, found from left to right.
pub open spec fn replaced(text: Seq<u8>, from: Seq<u8>, to: Seq<u8>) -> Seq<u8> {
    let parts = split_on(text, from);
    joined(parts, to, parts.len() as int)
}

fn extend(out: &mut Vec<u8>, more: &[u8])
    ensures
        final(out)@ == old(out)@ + more@,
{
    let mut i: usize = 0;
    while i < more.len()
        invariant
            i <= more.len(),
            out@ == old(out)@ + more@.take(i as int),
        decreases more.len() - i,
    {
        out.push(more[i]);
        proof {
            assert(more@.take(i + 1) =~= more@.take(i as int).push(more[i as int]));
            assert(out@ =~= old(out)@ + more@.take(i + 1));
        }
        i += 1;
    }
    proof {
        assert(more@.take(i as int) =~= more@);
    }
}

pub fn replace_all(text: &[u8], from: &[u8], to: &[u8]) -> (r: Vec<u8>)
    ensures
        r@ == replaced(text@, from@, to@),
{
    let parts = split_at_word(text, from);
    let ghost ps = split_on(text@, from@);
    let mut out: Vec<u8> = copy_bytes(parts[0].as_slice());
    let mut k: usize = 1;
    proof {
        assert(parts[0]@ == ps[0]);
    }
    while k < parts.len()
        invariant
            1 <= k <= parts.len(),
            rows_view(parts@) == ps,
            out@ == joined(ps, to@, k as int),
        decreases parts.len() - k,
    {
        proof {
            assert(parts[k as int]@ == ps[k as int]);
        }
        extend(&mut out, to);
        extend(&mut out, parts[k].as_slice());
        k += 1;
    }
    out
}

pub const DAY_MARK: [u8; 10] = [123, 123, 32, 36, 100, 97, 121, 32, 125, 125];

/// The source of a new day: the template with the number of the day
/// wherever the template marks it.
pub open spec fn template_for(source: Seq<u8>, day: nat) -> Seq<u8> {
    replaced(source, DAY_MARK@, bytes_of(decimal(day)))
}

pub fn fill_template(source: &str, day: u8) -> (r: Vec<u8>)
    ensures
        r@ == template_for(bytes_of(source@), day as nat),
{
    let number = decimal_string(day as u128);
    replace_all(source.as_bytes(), &DAY_MARK, number.as_str().as_bytes())
}

/// The source of the program with a new day: its entry behind that of
/// the day before, and its module behind the module of the day before.
pub open spec fn with_day(main_src: Seq<u8>, day: nat) -> Seq<u8> {
    let before = (day - 1) as nat;
    replaced(
        replaced(
            main_src,
            bytes_of(entry_of(before)),
            bytes_of(entry_of(before) + ", "@ + entry_of(day)),
        ),
        bytes_of(module_line_of(before)),
        bytes_of(module_line_of(before) + "\n"@ + module_line_of(day)),
    )
}

pub fn add_day(main_src: &str, day: u8) -> (r: Vec<u8>)
    requires
        day >= 1,
    ensures
        r@ == with_day(bytes_of(main_src@), day as nat),
{
    let old_entry = entry(day - 1);
    let mut new_entry = entry(day - 1);
    new_entry.append(", ");
    new_entry.append(entry(day).as_str());
    let old_line = module_line(day - 1);
    let mut new_line = module_line(day - 1);
    new_line.append("\n");
    new_line.append(module_line(day).as_str());
    let first = replace_all(
        main_src.as_bytes(),
        old_entry.as_str().as_bytes(),
        new_entry.as_str().as_bytes(),
    );
    replace_all(first.as_slice(), old_line.as_str().as_bytes(), new_line.as_str().as_bytes())
}

/// Whether the choice lets the day, or the part, run: no choice lets all run.
pub fn runs(choice: Option<u8>, n: u8) -> (b: bool)
    ensures
        b == match choice {
            Some(c) => c == n,
            None => true,
        },
{
    match choice {
        Some(c) => c == n,
        None => true,
    }
}

/// Whether the result takes more than one line.
pub fn is_multiline(result: &str) -> (b: bool)
    ensures
        b == (lines(bytes_of(result@)).len() > 1),
{
    split_lines(result.as_bytes()).len() > 1
}

} // verus!
