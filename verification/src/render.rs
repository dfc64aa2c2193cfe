//! Rendering of single side labels: the glyph for a label, wrapped in the
//! terminal colour codes that mark a matched or mismatched side.

use vstd::prelude::*;
use vstd::string::*;

verus! {

/// The letter a label is printed as: the alphabet's labels map to the
/// letters starting at `A`.
pub open spec fn label_view(num: int) -> Seq<char> {
    if num == 0 {
        "A"@
    } else if num == 1 {
        "B"@
    } else if num == 2 {
        "C"@
    } else if num == 3 {
        "D"@
    } else if num == 4 {
        "E"@
    } else if num == 5 {
        "F"@
    } else if num == 6 {
        "G"@
    } else if num == 7 {
        "H"@
    } else if num == 8 {
        "I"@
    } else if num == 9 {
        "J"@
    } else if num == 10 {
        "K"@
    } else if num == 11 {
        "L"@
    } else if num == 12 {
        "M"@
    } else if num == 13 {
        "N"@
    } else if num == 14 {
        "O"@
    } else if num == 15 {
        "P"@
    } else if num == 16 {
        "Q"@
    } else if num == 17 {
        "R"@
    } else if num == 18 {
        "S"@
    } else if num == 19 {
        "T"@
    } else if num == 20 {
        "U"@
    } else {
        "V"@
    }
}

/// The characters `colour_symbol` renders: the sentinel becomes a bare
/// border glyph, a label becomes its letter wrapped in green when it
/// matches and red when it does not, padded with spaces in the wide
/// horizontal form.
pub open spec fn spec_colour_symbol(
    num: int,
    matches: bool,
    vertical: bool,
    is_megatile: bool,
) -> Seq<char> {
    if num == -1 {
        if is_megatile {
            " "@
        } else if vertical {
            "│"@
        } else {
            "───"@
        }
    } else {
        let ch = label_view(num);
        if matches {
            if vertical || is_megatile {
                "\x1b[32m"@ + ch + "\x1b[0m"@
            } else {
                "\x1b[32m "@ + ch + " \x1b[0m"@
            }
        } else {
            if vertical || is_megatile {
                "\x1b[31m"@ + ch + "\x1b[0m"@
            } else {
                "\x1b[31m "@ + ch + " \x1b[0m"@
            }
        }
    }
}

/// The letter a label is printed as.
fn label_str(num: i8) -> (r: &'static str)
    requires
        0 <= num < 22,
    ensures
        r@ == label_view(num as int),
{
    match num {
        0 => "A",
        1 => "B",
        2 => "C",
        3 => "D",
        4 => "E",
        5 => "F",
        6 => "G",
        7 => "H",
        8 => "I",
        9 => "J",
        10 => "K",
        11 => "L",
        12 => "M",
        13 => "N",
        14 => "O",
        15 => "P",
        16 => "Q",
        17 => "R",
        18 => "S",
        19 => "T",
        20 => "U",
        _ => "V",
    }
}

/// Renders one side label for the terminal: the sentinel as a bare border
/// glyph, a label as its letter in green when the side matches its
/// neighbour and in red when it does not; the wide horizontal form pads the
/// letter with spaces.
pub fn colour_symbol(num: i8, matches: bool, vertical: bool, is_megatile: bool) -> (r: String)
    requires
        num == -1 || 0 <= num < 22,
    ensures
        r@ == spec_colour_symbol(num as int, matches, vertical, is_megatile),
{
    if num == -1 {
        if is_megatile {
            return String::from_str(" ");
        } else if vertical {
            return String::from_str("│");
        } else {
            return String::from_str("───");
        }
    }
    let ch = label_str(num);
    if matches {
        if vertical || is_megatile {
            String::from_str("\x1b[32m").concat(ch).concat("\x1b[0m")
        } else {
            String::from_str("\x1b[32m ").concat(ch).concat(" \x1b[0m")
        }
    } else {
        if vertical || is_megatile {
            String::from_str("\x1b[31m").concat(ch).concat("\x1b[0m")
        } else {
            String::from_str("\x1b[31m ").concat(ch).concat(" \x1b[0m")
        }
    }
}

} // verus!
