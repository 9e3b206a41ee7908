use vstd::prelude::*;

verus! {

/// The character of a decimal digit.
pub open spec fn digit_char(d: nat) -> char {
    if d == 0 { '0' }
    else if d == 1 { '1' }
    else if d == 2 { '2' }
    else if d == 3 { '3' }
    else if d == 4 { '4' }
    else if d == 5 { '5' }
    else if d == 6 { '6' }
    else if d == 7 { '7' }
    else if d == 8 { '8' }
    else { '9' }
}

/// The decimal notation of `n`, without sign or leading zeros.
pub open spec fn decimal(n: nat) -> Seq<char>
    decreases n,
{
    if n < 10 {
        seq![digit_char(n)]
    } else {
        decimal(n / 10).push(digit_char(n % 10))
    }
}

/// A terminal foreground colour.
#[derive(Clone, Copy, Debug, PartialEq, Eq, Structural)]
pub enum Hue {
    Cyan,
    Green,
    Yellow,
    Red,
}

impl Hue {
    /// The SGR parameter that selects this foreground colour.
    pub open spec fn sgr_code(self) -> Seq<char> {
        match self {
            Hue::Red => seq!['3', '1'],
            Hue::Green => seq!['3', '2'],
            Hue::Yellow => seq!['3', '3'],
            Hue::Cyan => seq!['3', '6'],
        }
    }
}

/// `text` between the escape sequence that selects the colour `code` and the
/// one that resets all attributes.
pub open spec fn sgr_wrapped(code: Seq<char>, text: Seq<char>) -> Seq<char> {
    seq!['\x1b', '['] + code + seq!['m'] + text + seq!['\x1b', '[', '0', 'm']
}

/// The text as a terminal shows it in colour `hue`: wrapped in escape
/// sequences when colouring is on, unchanged when it is off.
pub open spec fn painted(hue: Hue, text: Seq<char>) -> Set<Seq<char>> {
    set![text, sgr_wrapped(hue.sgr_code(), text)]
}

pub open spec fn no_escape(text: Seq<char>) -> bool {
    forall|i: int| 0 <= i < text.len() ==> text[i] != '\x1b'
}

/// Relies on colored's `Colorize::color` and on the `Display` of the
/// `ColoredString` that it returns. Whether colouring is on depends on the
/// environment and the terminal; when it is, the text (which holds no escape
/// character, so nothing in it is rewritten) is wrapped in the colour's
/// escape sequence and a reset, and when it is not, the text is returned as
/// it is.
#[verifier::external_body]
fn paint(text: &str, hue: Hue) -> (r: String)
    requires
        no_escape(text@),
    ensures
        painted(hue, text@).contains(r@),
{
    let color = match hue {
        Hue::Cyan => colored::Color::Cyan,
        Hue::Green => colored::Color::Green,
        Hue::Yellow => colored::Color::Yellow,
        Hue::Red => colored::Color::Red,
    };
    colored::Colorize::color(text, color).to_string()
}

fn digit_str(d: u16) -> (r: &'static str)
    requires
        d < 10,
    ensures
        r@ == seq![digit_char(d as nat)],
{
    if d == 0 {
        proof { reveal_strlit("0"); }
        "0"
    } else if d == 1 {
        proof { reveal_strlit("1"); }
        "1"
    } else if d == 2 {
        proof { reveal_strlit("2"); }
        "2"
    } else if d == 3 {
        proof { reveal_strlit("3"); }
        "3"
    } else if d == 4 {
        proof { reveal_strlit("4"); }
        "4"
    } else if d == 5 {
        proof { reveal_strlit("5"); }
        "5"
    } else if d == 6 {
        proof { reveal_strlit("6"); }
        "6"
    } else if d == 7 {
        proof { reveal_strlit("7"); }
        "7"
    } else if d == 8 {
        proof { reveal_strlit("8"); }
        "8"
    } else {
        proof { reveal_strlit("9"); }
        "9"
    }
}

/// Appends the decimal notation of `n` to `out`.
pub fn push_decimal(out: &mut String, n: u16)
    ensures
        final(out)@ == old(out)@ + decimal(n as nat),
    decreases n,
{
    if n >= 10 {
        push_decimal(out, n / 10);
    }
    let d = digit_str(n % 10);
    out.append(d);
    assert(final(out)@ =~= old(out)@ + decimal(n as nat));
}

/// The decimal notation of `n`.
pub fn decimal_string(n: u16) -> (r: String)
    ensures
        r@ == decimal(n as nat),
{
    let mut s = String::new();
    push_decimal(&mut s, n);
    assert(s@ =~= decimal(n as nat));
    s
}

proof fn lemma_decimal_has_no_escape(n: nat)
    ensures
        no_escape(decimal(n)),
    decreases n,
{
    if n >= 10 {
        lemma_decimal_has_no_escape(n / 10);
    }
}

/// The decimal notation of `n`, coloured as `hue` when the terminal takes
/// colours.
pub fn painted_decimal(n: u16, hue: Hue) -> (r: String)
    ensures
        painted(hue, decimal(n as nat)).contains(r@),
{
    let digits = decimal_string(n);
    proof { lemma_decimal_has_no_escape(n as nat); }
    paint(digits.as_str(), hue)
}

} // verus!
