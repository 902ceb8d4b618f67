//! The text of a report: each duplicate group framed by blank lines, one
//! path per line, then the count of files.
use vstd::prelude::*;
use vstd::string::StringExecFns;
use crate::aggregate::{strs, DuplicateGroup};

verus! {

/// The decimal digit for a value below 10.
pub open spec fn digit_char(d: nat) -> char {
    if d == 0 { '0' } else if d == 1 { '1' } else if d == 2 { '2' } else if d == 3 { '3' } else if d == 4 {
        '4'
    } else if d == 5 { '5' } else if d == 6 { '6' } else if d == 7 { '7' } else if d == 8 { '8' } else { '9' }
}

/// `n` written in decimal, without leading zeros.
pub open spec fn decimal(n: nat) -> Seq<char>
    decreases n,
{
    if n < 10 {
        seq![digit_char(n)]
    } else {
        decimal(n / 10).push(digit_char(n % 10))
    }
}

/// Each path followed by a line break.
pub open spec fn lines_text(ps: Seq<Seq<char>>) -> Seq<char>
    decreases ps.len(),
{
    if ps.len() == 0 {
        Seq::empty()
    } else {
        lines_text(ps.drop_last()) + ps.last() + seq!['\n']
    }
}

/// The text of the groups, each as a blank line, its paths, and a blank line.
pub open spec fn groups_text(gs: Seq<Seq<Seq<char>>>) -> Seq<char>
    decreases gs.len(),
{
    if gs.len() == 0 {
        Seq::empty()
    } else {
        groups_text(gs.drop_last()) + seq!['\n'] + lines_text(gs.last()) + seq!['\n']
    }
}

/// The whole report: the groups, then `Total files: <n>` on a line of its own.
pub open spec fn report_text(gs: Seq<Seq<Seq<char>>>, total: nat) -> Seq<char> {
    groups_text(gs) + seq!['T', 'o', 't', 'a', 'l', ' ', 'f', 'i', 'l', 'e', 's', ':', ' '] + decimal(total)
        + seq!['\n']
}

/// The paths of each group.
pub open spec fn group_paths(gs: Seq<DuplicateGroup>) -> Seq<Seq<Seq<char>>> {
    gs.map_values(|g: DuplicateGroup| strs(g.paths@))
}

fn digit_str(d: u64) -> (r: &'static str)
    requires
        d < 10,
    ensures
        r@ == seq![digit_char(d as nat)],
{
    proof {
        reveal_strlit("0");
        reveal_strlit("1");
        reveal_strlit("2");
        reveal_strlit("3");
        reveal_strlit("4");
        reveal_strlit("5");
        reveal_strlit("6");
        reveal_strlit("7");
        reveal_strlit("8");
        reveal_strlit("9");
    }
    if d == 0 { "0" } else if d == 1 { "1" } else if d == 2 { "2" } else if d == 3 { "3" } else if d == 4 {
        "4"
    } else if d == 5 { "5" } else if d == 6 { "6" } else if d == 7 { "7" } else if d == 8 { "8" } else { "9" }
}

fn append_decimal(s: &mut String, n: u64)
    ensures
        final(s)@ == old(s)@ + decimal(n as nat),
    decreases n,
{
    if n >= 10 {
        append_decimal(s, n / 10);
    }
    s.append(digit_str(n % 10));
    assert(final(s)@ =~= old(s)@ + decimal(n as nat));
}

/// Writes the report: each group as a blank line, its paths one per line,
/// and a blank line; then `Total files: <total>`.
pub fn render_report(groups: &Vec<DuplicateGroup>, total: u64) -> (r: String)
    ensures
        r@ == report_text(group_paths(groups@), total as nat),
{
    proof {
        reveal_strlit("\n");
        reveal_strlit("Total files: ");
    }
    let mut s = String::new();
    let mut i: usize = 0;
    while i < groups.len()
        invariant
            i <= groups@.len(),
            s@ == groups_text(group_paths(groups@).take(i as int)),
        decreases groups@.len() - i,
    {
        proof {
            reveal_strlit("\n");
        }
        let ghost all = group_paths(groups@);
        assert(all.take(i + 1).drop_last() =~= all.take(i as int));
        s.append("\n");
        let paths = &groups[i].paths;
        let ghost ps = strs(paths@);
        assert(all.take(i + 1).last() == ps);
        let mut j: usize = 0;
        assert(ps.take(0) =~= Seq::<Seq<char>>::empty());
        assert(s@ =~= groups_text(all.take(i as int)) + seq!['\n'] + lines_text(ps.take(0)));
        while j < paths.len()
            invariant
                j <= paths@.len(),
                ps == strs(paths@),
                s@ == groups_text(all.take(i as int)) + seq!['\n'] + lines_text(ps.take(j as int)),
            decreases paths@.len() - j,
        {
            proof {
                reveal_strlit("\n");
            }
            assert(ps.take(j + 1).drop_last() =~= ps.take(j as int));
            assert(ps.take(j + 1).last() == paths@[j as int]@);
            s.append(paths[j].as_str());
            s.append("\n");
            assert(s@ =~= groups_text(all.take(i as int)) + seq!['\n'] + lines_text(ps.take(j + 1)));
            j = j + 1;
        }
        assert(ps.take(j as int) =~= ps);
        s.append("\n");
        assert(s@ =~= groups_text(all.take(i + 1)));
        i = i + 1;
    }
    assert(group_paths(groups@).take(i as int) =~= group_paths(groups@));
    s.append("Total files: ");
    append_decimal(&mut s, total);
    s.append("\n");
    s
}

} // verus!
