//! The text of a grouped-bit dump: a header, then one line per group.
use vstd::prelude::*;

verus! {

/// The character of a decimal digit.
pub open spec fn digit_char(d: nat) -> char {
    seq!['0', '1', '2', '3', '4', '5', '6', '7', '8', '9'][d as int]
}

/// A number written in decimal, without leading zeros.
pub open spec fn decimal_text(n: nat) -> Seq<char>
    decreases n,
{
    if n < 10 {
        seq![digit_char(n)]
    } else {
        decimal_text(n / 10).push(digit_char(n % 10))
    }
}

/// The values of one group, each followed by a space.
pub open spec fn group_text(g: Seq<u8>) -> Seq<char>
    decreases g.len(),
{
    if g.len() == 0 {
        Seq::empty()
    } else {
        group_text(g.drop_last()) + decimal_text(g.last() as nat) + seq![' ']
    }
}

/// One line of the dump: the group's values, a bar, and the group's index.
pub open spec fn line_text(g: Seq<u8>, index: nat) -> Seq<char> {
    group_text(g) + seq!['|'] + decimal_text(index) + seq!['\n']
}

/// The lines of the first groups of a dump of `n` groups; the last group has index 0.
pub open spec fn lines_text(gs: Seq<Seq<u8>>, n: nat) -> Seq<char>
    decreases gs.len(),
{
    if gs.len() == 0 {
        Seq::empty()
    } else {
        lines_text(gs.drop_last(), n) + line_text(gs.last(), (n - gs.len()) as nat)
    }
}

/// The column labels and the separator line.
pub open spec fn header_text() -> Seq<char> {
    "0 1 2 3 4 5 6 7\n---------------\n"@
}

/// The whole dump of the groups, most significant group first.
pub open spec fn dump_text(gs: Seq<Seq<u8>>) -> Seq<char> {
    header_text() + lines_text(gs, gs.len())
}

/// Relies on `String::push`: the character is appended at the end.
#[verifier::external_body]
fn push_char(s: &mut String, c: char)
    ensures
        final(s)@ == old(s)@.push(c),
{
    s.push(c);
}

/// Appends `n` written in decimal.
fn push_decimal(s: &mut String, n: usize)
    ensures
        final(s)@ == old(s)@ + decimal_text(n as nat),
    decreases n,
{
    let table: [char; 10] = ['0', '1', '2', '3', '4', '5', '6', '7', '8', '9'];
    assert(table@ =~= seq!['0', '1', '2', '3', '4', '5', '6', '7', '8', '9']);
    if n >= 10 {
        push_decimal(s, n / 10);
    }
    push_char(s, table[n % 10]);
    assert(s@ =~= old(s)@ + decimal_text(n as nat));
}

/// Appends the line of one group with its index.
fn push_line(s: &mut String, g: &Vec<u8>, index: usize)
    ensures
        final(s)@ == old(s)@ + line_text(g@, index as nat),
{
    let mut k: usize = 0;
    while k < g.len()
        invariant
            k <= g@.len(),
            s@ == old(s)@ + group_text(g@.take(k as int)),
        decreases g.len() - k,
    {
        let ghost before = s@;
        push_decimal(s, g[k] as usize);
        push_char(s, ' ');
        assert(g@.take(k + 1).drop_last() =~= g@.take(k as int));
        assert(s@ =~= old(s)@ + group_text(g@.take(k + 1)));
        k = k + 1;
    }
    assert(g@.take(g@.len() as int) =~= g@);
    push_char(s, '|');
    push_decimal(s, index);
    push_char(s, '\n');
    assert(s@ =~= old(s)@ + line_text(g@, index as nat));
}

/// The dump of the groups: column labels, a separator, then each group with its index.
pub fn dump_bytes(bytes: &[Vec<u8>]) -> (text: String)
    ensures
        text@ == dump_text(bytes.deep_view()),
{
    let mut s = String::new();
    s.append("0 1 2 3 4 5 6 7\n---------------\n");
    let n = bytes.len();
    let mut i: usize = 0;
    while i < n
        invariant
            n == bytes@.len(),
            i <= n,
            s@ == header_text() + lines_text(bytes.deep_view().take(i as int), n as nat),
        decreases n - i,
    {
        push_line(&mut s, &bytes[i], n - 1 - i);
        assert(bytes.deep_view().take(i + 1).drop_last() =~= bytes.deep_view().take(i as int));
        assert(bytes.deep_view().take(i + 1).last() == bytes@[i as int]@);
        assert(s@ == header_text() + lines_text(bytes.deep_view().take(i as int), n as nat)
            + line_text(bytes@[i as int]@, (n - 1 - i) as nat));
        assert(s@ =~= header_text() + lines_text(bytes.deep_view().take(i + 1), n as nat));
        i = i + 1;
    }
    assert(bytes.deep_view().take(n as int) =~= bytes.deep_view());
    s
}

} // verus!
