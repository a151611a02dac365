//! Small text-building helpers shared by the record renderers.

use vstd::prelude::*;

verus! {

/// The pieces joined with the separator between each pair.
pub open spec fn spec_join(parts: Seq<Seq<char>>, sep: Seq<char>) -> Seq<char>
    decreases parts.len(),
{
    if parts.len() == 0 {
        Seq::empty()
    } else if parts.len() == 1 {
        parts[0]
    } else {
        spec_join(parts.drop_last(), sep) + sep + parts.last()
    }
}

/// Joining also separates the first piece from the joined rest.
pub proof fn lemma_join_first(parts: Seq<Seq<char>>, sep: Seq<char>)
    requires
        parts.len() >= 2,
    ensures
        spec_join(parts, sep) == parts[0] + sep + spec_join(parts.drop_first(), sep),
    decreases parts.len(),
{
    if parts.len() == 2 {
        assert(parts.drop_last() =~= seq![parts[0]]);
        assert(parts.drop_first() =~= seq![parts[1]]);
        assert(spec_join(seq![parts[0]], sep) == parts[0]);
        assert(spec_join(seq![parts[1]], sep) == parts[1]);
    } else {
        lemma_join_first(parts.drop_last(), sep);
        assert(parts.drop_last().drop_first() =~= parts.drop_first().drop_last());
        assert(parts.drop_last()[0] == parts[0]);
        assert(parts.drop_first().last() == parts.last());
        assert(spec_join(parts.drop_first(), sep) == spec_join(
            parts.drop_first().drop_last(),
            sep,
        ) + sep + parts.drop_first().last());
        assert((parts[0] + sep + spec_join(parts.drop_first().drop_last(), sep)) + sep
            + parts.last() =~= parts[0] + sep + (spec_join(parts.drop_first().drop_last(), sep)
            + sep + parts.last()));
    }
}

/// Joins the pieces with the separator between each pair.
pub fn join_strings(parts: &Vec<String>, sep: &str) -> (r: String)
    ensures
        r@ == spec_join(parts.deep_view(), sep@),
{
    let mut out = String::new();
    let mut i: usize = 0;
    proof {
        assert(out@ =~= Seq::<char>::empty());
        assert(parts.deep_view().subrange(0, 0).len() == 0);
    }
    while i < parts.len()
        invariant
            i <= parts@.len(),
            out@ == spec_join(parts.deep_view().subrange(0, i as int), sep@),
        decreases parts@.len() - i,
    {
        proof {
            let sub1 = parts.deep_view().subrange(0, i as int + 1);
            assert(sub1.drop_last() =~= parts.deep_view().subrange(0, i as int));
            assert(sub1.last() == parts.deep_view()[i as int]);
        }
        if i > 0 {
            out.append(sep);
        }
        out.append(parts[i].as_str());
        proof {
            let sub = parts.deep_view().subrange(0, i as int);
            let sub1 = parts.deep_view().subrange(0, i as int + 1);
            if i == 0 {
                assert(sub1.len() == 1);
                assert(Seq::<char>::empty() + parts.deep_view()[0] =~= parts.deep_view()[0]);
                assert(out@ =~= spec_join(sub1, sep@));
            } else {
                assert(out@ =~= spec_join(sub, sep@) + sep@ + parts.deep_view()[i as int]);
            }
        }
        i = i + 1;
    }
    proof {
        assert(parts.deep_view().subrange(0, i as int) =~= parts.deep_view());
    }
    out
}

/// One decimal digit as a character.
pub open spec fn dec_digit(n: int) -> char {
    if n == 0 {
        '0'
    } else if n == 1 {
        '1'
    } else if n == 2 {
        '2'
    } else if n == 3 {
        '3'
    } else if n == 4 {
        '4'
    } else if n == 5 {
        '5'
    } else if n == 6 {
        '6'
    } else if n == 7 {
        '7'
    } else if n == 8 {
        '8'
    } else {
        '9'
    }
}

/// The usual decimal rendering of a non-negative number, without leading
/// zeros.
pub open spec fn dec_str(n: int) -> Seq<char>
    decreases n,
{
    if n < 10 {
        seq![dec_digit(n)]
    } else {
        dec_str(n / 10) + seq![dec_digit(n % 10)]
    }
}

/// One decimal digit as a string slice.
fn digit_str(d: u8) -> (r: &'static str)
    requires
        d <= 9,
    ensures
        r@ == seq![dec_digit(d as int)],
{
    proof {
        reveal_strlit("0");
        reveal_strlit("1");
        reveal_strlit("2");
        reveal_strlit("3");
        reveal_strlit("4");
        reveal_strlit("5");
        reveal_strlit("6");
        reveal_strlit("7");
        reveal_strlit("8");
        reveal_strlit("9");
    }
    match d {
        0 => "0",
        1 => "1",
        2 => "2",
        3 => "3",
        4 => "4",
        5 => "5",
        6 => "6",
        7 => "7",
        8 => "8",
        _ => "9",
    }
}

/// Renders a stroke count in decimal.
pub fn u8_to_string(n: u8) -> (r: String)
    ensures
        r@ == dec_str(n as int),
{
    let mut out = String::new();
    if n >= 100 {
        out.append(digit_str(n / 100));
        out.append(digit_str((n / 10) % 10));
        out.append(digit_str(n % 10));
        proof {
            assert(n / 10 >= 10);
            assert(dec_str(n as int) == dec_str(n as int / 10) + seq![dec_digit(n as int % 10)]);
            assert(dec_str(n as int / 10) == dec_str(n as int / 10 / 10) + seq![dec_digit(
                n as int / 10 % 10,
            )]);
            assert(n as int / 10 / 10 < 10);
            assert(dec_str(n as int / 10 / 10) == seq![dec_digit(n as int / 10 / 10)]);
            assert((n / 100) as int == n as int / 10 / 10);
            assert(((n / 10) % 10) as int == n as int / 10 % 10);
            assert(out@ =~= dec_str(n as int));
        }
    } else if n >= 10 {
        out.append(digit_str(n / 10));
        out.append(digit_str(n % 10));
        proof {
            assert(dec_str(n as int) == dec_str(n as int / 10) + seq![dec_digit(n as int % 10)]);
            assert(Seq::<char>::empty() + seq![dec_digit((n / 10) as int)] =~= seq![dec_digit(
                (n / 10) as int,
            )]);
            assert(out@ =~= dec_str(n as int));
        }
    } else {
        out.append(digit_str(n));
        proof {
            assert(Seq::<char>::empty() + seq![dec_digit(n as int)] =~= seq![dec_digit(n as int)]);
        }
    }
    out
}

} // verus!
