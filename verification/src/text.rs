//! Decimal numbers and padded columns, as text.
use vstd::prelude::*;
use vstd::string::*;

verus! {

/// The decimal digit for a number below ten.
pub open spec fn digit(d: nat) -> char {
    (('0' as nat) + d) as char
}

/// A number in decimal notation, without leading zeros.
pub open spec fn decimal(n: nat) -> Seq<char>
    decreases n,
{
    if n < 10 {
        seq![digit(n)]
    } else {
        decimal(n / 10).push(digit(n % 10))
    }
}

/// `n` spaces.
pub open spec fn spaces(n: nat) -> Seq<char> {
    Seq::new(n, |i: int| ' ')
}

/// `text`, right-aligned in a column of `width` characters. A longer text
/// stays as it is.
pub open spec fn right_aligned(text: Seq<char>, width: nat) -> Seq<char> {
    spaces(if text.len() < width { (width - text.len()) as nat } else { 0 }) + text
}

/// `text`, left-aligned in a column of `width` characters. A longer text stays
/// as it is.
pub open spec fn left_aligned(text: Seq<char>, width: nat) -> Seq<char> {
    text + spaces(if text.len() < width { (width - text.len()) as nat } else { 0 })
}

/// The number that decimal digits stand for, the most significant one first.
pub open spec fn read_back(text: Seq<char>) -> int
    decreases text.len(),
{
    if text.len() == 0 {
        0
    } else {
        10 * read_back(text.drop_last()) + (text.last() as int - '0' as int)
    }
}

/// Digits are read by their place: each digit more makes ten times as much of
/// those before it, and adds its own worth.
pub proof fn lemma_read_back_goes_by_place(text: Seq<char>, next: char)
    ensures
        read_back(Seq::empty()) == 0,
        read_back(text.push(next)) == 10 * read_back(text) + (next as int - '0' as int),
{
    assert(text.push(next).drop_last() =~= text);
}

/// A number in decimal notation reads back as the number. It is made of digits
/// alone, of at least one, and does not begin with a zero unless it is zero.
pub proof fn lemma_decimal_reads_back(n: nat)
    ensures
        read_back(decimal(n)) == n,
        decimal(n).len() > 0,
        forall|i: int|
            0 <= i < decimal(n).len() ==> '0' as int <= (#[trigger] decimal(n)[i]) as int
                <= '9' as int,
        n > 0 ==> decimal(n)[0] != '0',
    decreases n,
{
    if n < 10 {
        let text = decimal(n);
        assert(text.drop_last() =~= Seq::<char>::empty());
        assert(read_back(text.drop_last()) == 0);
        assert(text.last() as int == '0' as int + n);
    } else {
        lemma_decimal_reads_back(n / 10);
        lemma_read_back_goes_by_place(decimal(n / 10), digit(n % 10));
        assert(digit(n % 10) as int == '0' as int + n % 10);
        assert(decimal(n)[0] == decimal(n / 10)[0]);
        assert forall|i: int| 0 <= i < decimal(n).len() implies '0' as int <= (
        #[trigger] decimal(n)[i]) as int <= '9' as int by {
            if i < decimal(n / 10).len() {
                assert(decimal(n)[i] == decimal(n / 10)[i]);
            }
        }
    }
}

/// Different numbers have different notations.
pub proof fn lemma_decimals_differ(a: nat, b: nat)
    requires
        a != b,
    ensures
        decimal(a) != decimal(b),
{
    lemma_decimal_reads_back(a);
    lemma_decimal_reads_back(b);
}

/// A right-aligned text fills the column, ends with the text, and has nothing
/// but spaces before it. No text is cut.
pub proof fn lemma_right_aligned_pads(text: Seq<char>, width: nat)
    ensures
        ({
            let out = right_aligned(text, width);
            let before = out.len() - text.len();
            &&& out.len() == if text.len() < width { width } else { text.len() }
            &&& out.skip(before) == text
            &&& forall|i: int| 0 <= i < before ==> #[trigger] out[i] == ' '
        }),
{
    let out = right_aligned(text, width);
    assert(out.skip(out.len() - text.len()) =~= text);
}

/// A left-aligned text fills the column, begins with the text, and has nothing
/// but spaces after it. No text is cut.
pub proof fn lemma_left_aligned_pads(text: Seq<char>, width: nat)
    ensures
        ({
            let out = left_aligned(text, width);
            &&& out.len() == if text.len() < width { width } else { text.len() }
            &&& out.take(text.len() as int) == text
            &&& forall|i: int| text.len() <= i < out.len() ==> #[trigger] out[i] == ' '
        }),
{
    let out = left_aligned(text, width);
    assert(out.take(text.len() as int) =~= text);
}

/// The digit for `d`.
fn digit_text(d: u64) -> (text: &'static str)
    requires
        d < 10,
    ensures
        text@ == seq![digit(d as nat)],
{
    proof {
        reveal_strlit("0");
        reveal_strlit("1");
        reveal_strlit("2");
        reveal_strlit("3");
        reveal_strlit("4");
        reveal_strlit("5");
        reveal_strlit("6");
        reveal_strlit("7");
        reveal_strlit("8");
        reveal_strlit("9");
    }
    if d == 0 {
        "0"
    } else if d == 1 {
        "1"
    } else if d == 2 {
        "2"
    } else if d == 3 {
        "3"
    } else if d == 4 {
        "4"
    } else if d == 5 {
        "5"
    } else if d == 6 {
        "6"
    } else if d == 7 {
        "7"
    } else if d == 8 {
        "8"
    } else {
        "9"
    }
}

/// Appends `n` in decimal notation.
pub(crate) fn push_decimal(out: &mut String, n: u64)
    ensures
        final(out)@ == old(out)@ + decimal(n as nat),
    decreases n,
{
    if n >= 10 {
        push_decimal(out, n / 10);
    }
    out.append(digit_text(n % 10));
}

/// Appends `n` spaces.
fn push_spaces(out: &mut String, n: usize)
    ensures
        final(out)@ == old(out)@ + spaces(n as nat),
{
    proof {
        reveal_strlit(" ");
    }
    let mut i: usize = 0;
    assert(out@ =~= old(out)@ + spaces(0));
    while i < n
        invariant
            i <= n,
            out@ == old(out)@ + spaces(i as nat),
            " "@ == seq![' '],
        decreases n - i,
    {
        out.append(" ");
        i = i + 1;
        assert(out@ =~= old(out)@ + spaces(i as nat));
    }
}

/// Appends `text`, right-aligned in a column of `width` characters.
pub(crate) fn push_right_aligned(out: &mut String, text: &str, width: usize)
    ensures
        final(out)@ == old(out)@ + right_aligned(text@, width as nat),
{
    let len: usize = text.unicode_len();
    if len < width {
        push_spaces(out, width - len);
    } else {
        assert(out@ =~= old(out)@ + spaces(0));
    }
    out.append(text);
    assert(out@ =~= old(out)@ + right_aligned(text@, width as nat));
}

/// Appends `text`, left-aligned in a column of `width` characters.
pub(crate) fn push_left_aligned(out: &mut String, text: &str, width: usize)
    ensures
        final(out)@ == old(out)@ + left_aligned(text@, width as nat),
{
    out.append(text);
    let len: usize = text.unicode_len();
    if len < width {
        push_spaces(out, width - len);
    }
    assert(out@ =~= old(out)@ + left_aligned(text@, width as nat));
}

/// `n` in decimal notation.
pub(crate) fn decimal_text(n: u64) -> (text: String)
    ensures
        text@ == decimal(n as nat),
{
    let mut text: String = String::new();
    push_decimal(&mut text, n);
    assert(text@ =~= decimal(n as nat));
    text
}

} // verus!
