//! Merging membership records parsed from several files.
//!
//! Records group by their full radical value: glyph, stroke count and
//! alternate must all match; a radical that appears with two different
//! alternates stays two records.  Each group's kanji lists are unioned
//! with exact duplicates removed and sorted in ascending code-point
//! order, and the records themselves are put in a fixed total order:
//! ascending stroke count, ties broken by descending kanji count, and
//! remaining ties by ascending glyph order.

use vstd::prelude::*;

use crate::radk::{Alternate, Expansion, ExpansionV, Radical, RadicalV};

verus! {

/// Ascending lexicographic order over the code points of two texts.
pub open spec fn lex_le(a: Seq<char>, b: Seq<char>) -> bool
    decreases a.len(),
{
    if a.len() == 0 {
        true
    } else if b.len() == 0 {
        false
    } else if a[0] != b[0] {
        (a[0] as u32) < (b[0] as u32)
    } else {
        lex_le(a.drop_first(), b.drop_first())
    }
}

/// Any two texts are ordered.
pub proof fn lemma_lex_le_total(a: Seq<char>, b: Seq<char>)
    ensures
        lex_le(a, b) || lex_le(b, a),
    decreases a.len(),
{
    if a.len() > 0 && b.len() > 0 {
        if a[0] == b[0] {
            lemma_lex_le_total(a.drop_first(), b.drop_first());
        } else {
            vstd::utf8::char_u32_cast(a[0], a[0] as u32);
            vstd::utf8::char_u32_cast(b[0], b[0] as u32);
            assert((a[0] as u32) != (b[0] as u32));
        }
    }
}

/// The text order is transitive.
pub proof fn lemma_lex_le_trans(a: Seq<char>, b: Seq<char>, c: Seq<char>)
    requires
        lex_le(a, b),
        lex_le(b, c),
    ensures
        lex_le(a, c),
    decreases a.len(),
{
    if a.len() > 0 && b.len() > 0 && c.len() > 0 && a[0] == b[0] && b[0] == c[0] {
        lemma_lex_le_trans(a.drop_first(), b.drop_first(), c.drop_first());
    }
}

/// The deliberate three-key record order: ascending stroke count, then
/// descending kanji count, then ascending glyph order.
pub open spec fn order_le(x: ExpansionV, y: ExpansionV) -> bool {
    ||| x.radical.strokes < y.radical.strokes
    ||| (x.radical.strokes == y.radical.strokes && x.kanji.len() > y.kanji.len())
    ||| (x.radical.strokes == y.radical.strokes && x.kanji.len() == y.kanji.len() && lex_le(
        x.radical.glyph,
        y.radical.glyph,
    ))
}

/// Any two records are ordered.
pub proof fn lemma_order_le_total(x: ExpansionV, y: ExpansionV)
    ensures
        order_le(x, y) || order_le(y, x),
{
    lemma_lex_le_total(x.radical.glyph, y.radical.glyph);
}

/// The record order is transitive.
pub proof fn lemma_order_le_trans(x: ExpansionV, y: ExpansionV, z: ExpansionV)
    requires
        order_le(x, y),
        order_le(y, z),
    ensures
        order_le(x, z),
{
    if x.radical.strokes == y.radical.strokes && y.radical.strokes == z.radical.strokes
        && x.kanji.len() == y.kanji.len() && y.kanji.len() == z.kanji.len() {
        lemma_lex_le_trans(x.radical.glyph, y.radical.glyph, z.radical.glyph);
    }
}

/// Compares two texts in ascending code-point order.
pub fn str_le(a: &str, b: &str) -> (r: bool)
    ensures
        r == lex_le(a@, b@),
{
    let alen = a.unicode_len();
    let blen = b.unicode_len();
    let mut i: usize = 0;
    proof {
        assert(a@.skip(0) =~= a@);
        assert(b@.skip(0) =~= b@);
    }
    while i < alen && i < blen
        invariant
            alen == a@.len(),
            blen == b@.len(),
            i <= alen,
            i <= blen,
            lex_le(a@, b@) == lex_le(a@.skip(i as int), b@.skip(i as int)),
        decreases alen - i,
    {
        let ca = a.get_char(i);
        let cb = b.get_char(i);
        if ca != cb {
            assert(a@.skip(i as int)[0] == ca && b@.skip(i as int)[0] == cb);
            return (ca as u32) < (cb as u32);
        }
        proof {
            assert(a@.skip(i as int).drop_first() =~= a@.skip(i as int + 1));
            assert(b@.skip(i as int).drop_first() =~= b@.skip(i as int + 1));
            assert(a@.skip(i as int)[0] == a@[i as int]);
            assert(b@.skip(i as int)[0] == b@[i as int]);
        }
        i = i + 1;
    }
    proof {
        assert(a@.skip(i as int).len() == a@.len() - i);
        assert(b@.skip(i as int).len() == b@.len() - i);
    }
    alen <= blen
}

/// Compares two records in the three-key order.
pub fn expansion_le(x: &Expansion, y: &Expansion) -> (r: bool)
    ensures
        r == order_le(x@, y@),
{
    proof {
        assert(x@.kanji.len() == x.kanji@.len());
        assert(y@.kanji.len() == y.kanji@.len());
    }
    if x.radical.strokes < y.radical.strokes {
        true
    } else if x.radical.strokes == y.radical.strokes {
        if x.kanji.len() > y.kanji.len() {
            true
        } else if x.kanji.len() == y.kanji.len() {
            str_le(x.radical.glyph.as_str(), y.radical.glyph.as_str())
        } else {
            false
        }
    } else {
        false
    }
}

/// Sorts texts in ascending code-point order; the result is a permutation
/// of the input.
pub fn sort_strings(v: Vec<String>) -> (r: Vec<String>)
    ensures
        r.deep_view().to_multiset() == v.deep_view().to_multiset(),
        forall|i: int, j: int|
            0 <= i < j < r.deep_view().len() ==> lex_le(
                #[trigger] r.deep_view()[i],
                #[trigger] r.deep_view()[j],
            ),
{
    broadcast use vstd::seq_lib::group_to_multiset_ensures;

    let ghost orig = v.deep_view().to_multiset();
    let mut work = v;
    let mut out: Vec<String> = Vec::new();
    proof {
        assert(out.deep_view() =~= Seq::<Seq<char>>::empty());
        assert(out.deep_view().to_multiset().add(work.deep_view().to_multiset()) =~= orig);
    }
    while work.len() > 0
        invariant
            out.deep_view().to_multiset().add(work.deep_view().to_multiset()) == orig,
            forall|i: int, j: int|
                0 <= i < j < out.deep_view().len() ==> lex_le(
                    #[trigger] out.deep_view()[i],
                    #[trigger] out.deep_view()[j],
                ),
            forall|i: int, j: int|
                0 <= i < out.deep_view().len() && 0 <= j < work.deep_view().len() ==> lex_le(
                    #[trigger] out.deep_view()[i],
                    #[trigger] work.deep_view()[j],
                ),
        decreases work.len(),
    {
        let mut m: usize = 0;
        let mut k: usize = 1;
        proof {
            lemma_lex_le_total(work.deep_view()[0], work.deep_view()[0]);
        }
        while k < work.len()
            invariant
                m < k <= work@.len(),
                forall|t: int| 0 <= t < k ==> lex_le(work.deep_view()[m as int], #[trigger] work.deep_view()[t]),
            decreases work@.len() - k,
        {
            if !str_le(work[m].as_str(), work[k].as_str()) {
                proof {
                    lemma_lex_le_total(work.deep_view()[m as int], work.deep_view()[k as int]);
                    assert forall|t: int| 0 <= t < k + 1 implies lex_le(
                        work.deep_view()[k as int],
                        #[trigger] work.deep_view()[t],
                    ) by {
                        if t < k {
                            lemma_lex_le_trans(
                                work.deep_view()[k as int],
                                work.deep_view()[m as int],
                                work.deep_view()[t],
                            );
                        } else {
                            lemma_lex_le_total(
                                work.deep_view()[k as int],
                                work.deep_view()[k as int],
                            );
                        }
                    }
                }
                m = k;
            }
            k = k + 1;
        }
        let ghost old_work = work.deep_view();
        let ghost old_out = out.deep_view();
        let x = work.remove(m);
        out.push(x);
        proof {
            broadcast use vstd::seq_lib::group_to_multiset_ensures;

            assert(work.deep_view() =~= old_work.remove(m as int));
            assert(out.deep_view() =~= old_out.push(x@));
            assert(x@ == old_work[m as int]);
            assert(old_work.remove(m as int).to_multiset() =~= old_work.to_multiset().remove(x@));
            assert(old_out.push(x@).to_multiset() =~= old_out.to_multiset().insert(x@));
            assert(old_work.to_multiset().contains(x@));
            assert(out.deep_view().to_multiset().add(work.deep_view().to_multiset()) =~= old_out.to_multiset().add(old_work.to_multiset()));
            assert forall|i: int, j: int|
                0 <= i < out.deep_view().len() && 0 <= j < work.deep_view().len() implies lex_le(
                #[trigger] out.deep_view()[i],
                #[trigger] work.deep_view()[j],
            ) by {
                let wj = work.deep_view()[j];
                assert(wj == if j < m { old_work[j] } else { old_work[j + 1] });
                if i < old_out.len() {
                    assert(out.deep_view()[i] == old_out[i]);
                } else {
                    assert(out.deep_view()[i] == x@);
                }
            }
        }
    }
    proof {
        assert(work.deep_view() =~= Seq::<Seq<char>>::empty());
        assert(out.deep_view().to_multiset().add(Seq::<Seq<char>>::empty().to_multiset()) =~= out.deep_view().to_multiset());
    }
    out
}

/// Sorts records in the three-key order; the result is a permutation of
/// the input.
pub fn sort_expansions(v: Vec<Expansion>) -> (r: Vec<Expansion>)
    ensures
        r.deep_view().to_multiset() == v.deep_view().to_multiset(),
        forall|i: int, j: int|
            0 <= i < j < r.deep_view().len() ==> order_le(
                #[trigger] r.deep_view()[i],
                #[trigger] r.deep_view()[j],
            ),
{
    broadcast use vstd::seq_lib::group_to_multiset_ensures;

    let ghost orig = v.deep_view().to_multiset();
    let mut work = v;
    let mut out: Vec<Expansion> = Vec::new();
    proof {
        assert(out.deep_view() =~= Seq::<ExpansionV>::empty());
        assert(out.deep_view().to_multiset().add(work.deep_view().to_multiset()) =~= orig);
    }
    while work.len() > 0
        invariant
            out.deep_view().to_multiset().add(work.deep_view().to_multiset()) == orig,
            forall|i: int, j: int|
                0 <= i < j < out.deep_view().len() ==> order_le(
                    #[trigger] out.deep_view()[i],
                    #[trigger] out.deep_view()[j],
                ),
            forall|i: int, j: int|
                0 <= i < out.deep_view().len() && 0 <= j < work.deep_view().len() ==> order_le(
                    #[trigger] out.deep_view()[i],
                    #[trigger] work.deep_view()[j],
                ),
        decreases work.len(),
    {
        let mut m: usize = 0;
        let mut k: usize = 1;
        proof {
            lemma_order_le_total(work.deep_view()[0], work.deep_view()[0]);
        }
        while k < work.len()
            invariant
                m < k <= work@.len(),
                forall|t: int| 0 <= t < k ==> order_le(work.deep_view()[m as int], #[trigger] work.deep_view()[t]),
            decreases work@.len() - k,
        {
            if !expansion_le(&work[m], &work[k]) {
                proof {
                    lemma_order_le_total(work.deep_view()[m as int], work.deep_view()[k as int]);
                    assert forall|t: int| 0 <= t < k + 1 implies order_le(
                        work.deep_view()[k as int],
                        #[trigger] work.deep_view()[t],
                    ) by {
                        if t < k {
                            lemma_order_le_trans(
                                work.deep_view()[k as int],
                                work.deep_view()[m as int],
                                work.deep_view()[t],
                            );
                        } else {
                            lemma_order_le_total(
                                work.deep_view()[k as int],
                                work.deep_view()[k as int],
                            );
                        }
                    }
                }
                m = k;
            }
            k = k + 1;
        }
        let ghost old_work = work.deep_view();
        let ghost old_out = out.deep_view();
        let x = work.remove(m);
        out.push(x);
        proof {
            broadcast use vstd::seq_lib::group_to_multiset_ensures;

            assert(work.deep_view() =~= old_work.remove(m as int));
            assert(out.deep_view() =~= old_out.push(x@));
            assert(x@ == old_work[m as int]);
            assert(old_work.remove(m as int).to_multiset() =~= old_work.to_multiset().remove(x@));
            assert(old_out.push(x@).to_multiset() =~= old_out.to_multiset().insert(x@));
            assert(old_work.to_multiset().contains(x@));
            assert(out.deep_view().to_multiset().add(work.deep_view().to_multiset()) =~= old_out.to_multiset().add(old_work.to_multiset()));
            assert forall|i: int, j: int|
                0 <= i < out.deep_view().len() && 0 <= j < work.deep_view().len() implies order_le(
                #[trigger] out.deep_view()[i],
                #[trigger] work.deep_view()[j],
            ) by {
                let wj = work.deep_view()[j];
                assert(wj == if j < m { old_work[j] } else { old_work[j + 1] });
                if i < old_out.len() {
                    assert(out.deep_view()[i] == old_out[i]);
                } else {
                    assert(out.deep_view()[i] == x@);
                }
            }
        }
    }
    proof {
        assert(work.deep_view() =~= Seq::<ExpansionV>::empty());
        assert(out.deep_view().to_multiset().add(Seq::<ExpansionV>::empty().to_multiset()) =~= out.deep_view().to_multiset());
    }
    out
}

/// Whether some record of `rs` has exactly this radical.
pub open spec fn spec_has_radical(rs: Seq<ExpansionV>, rad: RadicalV) -> bool {
    exists|i: int| 0 <= i < rs.len() && (#[trigger] rs[i]).radical == rad
}

/// Whether `x` is a kanji of some record of `rs` with exactly this radical.
pub open spec fn in_kanji_union(rs: Seq<ExpansionV>, rad: RadicalV, x: Seq<char>) -> bool {
    exists|i: int| 0 <= i < rs.len() && (#[trigger] rs[i]).radical == rad && rs[i].kanji.contains(x)
}

/// The union of the kanji lists of every record of `rs` with this radical.
pub open spec fn spec_kanji_union(rs: Seq<ExpansionV>, rad: RadicalV) -> Set<Seq<char>> {
    Set::new(|x: Seq<char>| in_kanji_union(rs, rad, x))
}

/// A kanji list in canonical form: ascending code-point order, free of
/// duplicates.
pub open spec fn kanji_sorted(ks: Seq<Seq<char>>) -> bool {
    &&& forall|i: int, j: int| 0 <= i < j < ks.len() ==> lex_le(#[trigger] ks[i], #[trigger] ks[j])
    &&& ks.no_duplicates()
}

/// Extending the scanned prefix by one record extends the union of that
/// record's radical by its kanji and leaves every other union unchanged.
proof fn lemma_union_extend(rs: Seq<ExpansionV>, idx: int, rad: RadicalV)
    requires
        0 <= idx < rs.len(),
    ensures
        spec_kanji_union(rs.subrange(0, idx + 1), rad) == if rs[idx].radical == rad {
            spec_kanji_union(rs.subrange(0, idx), rad).union(rs[idx].kanji.to_set())
        } else {
            spec_kanji_union(rs.subrange(0, idx), rad)
        },
{
    let pre = rs.subrange(0, idx);
    let ext = rs.subrange(0, idx + 1);
    let rhs = if rs[idx].radical == rad {
        spec_kanji_union(pre, rad).union(rs[idx].kanji.to_set())
    } else {
        spec_kanji_union(pre, rad)
    };
    assert forall|x: Seq<char>| spec_kanji_union(ext, rad).contains(x) implies rhs.contains(x) by {
        let i = choose|i: int| 0 <= i < ext.len() && (#[trigger] ext[i]).radical == rad
            && ext[i].kanji.contains(x);
        if i < idx {
            assert(pre[i] == ext[i]);
            assert(in_kanji_union(pre, rad, x));
        } else {
            assert(ext[i] == rs[idx]);
        }
    }
    assert forall|x: Seq<char>| rhs.contains(x) implies spec_kanji_union(ext, rad).contains(x) by {
        if spec_kanji_union(pre, rad).contains(x) {
            let i = choose|i: int| 0 <= i < pre.len() && (#[trigger] pre[i]).radical == rad
                && pre[i].kanji.contains(x);
            assert(ext[i] == pre[i]);
            assert(in_kanji_union(ext, rad, x));
        } else {
            assert(rs[idx].radical == rad && rs[idx].kanji.contains(x));
            assert(ext[idx] == rs[idx]);
            assert(in_kanji_union(ext, rad, x));
        }
    }
    assert(spec_kanji_union(ext, rad) =~= rhs);
}

/// Extending the scanned prefix by one record adds exactly that record's
/// radical to the radicals present.
proof fn lemma_has_extend(rs: Seq<ExpansionV>, idx: int, rad: RadicalV)
    requires
        0 <= idx < rs.len(),
    ensures
        spec_has_radical(rs.subrange(0, idx + 1), rad) == (spec_has_radical(
            rs.subrange(0, idx),
            rad,
        ) || rs[idx].radical == rad),
{
    let pre = rs.subrange(0, idx);
    let ext = rs.subrange(0, idx + 1);
    if spec_has_radical(ext, rad) {
        let i = choose|i: int| 0 <= i < ext.len() && (#[trigger] ext[i]).radical == rad;
        if i < idx {
            assert(pre[i] == ext[i]);
            assert(spec_has_radical(pre, rad));
        } else {
            assert(ext[i] == rs[idx]);
        }
    }
    if spec_has_radical(pre, rad) {
        let i = choose|i: int| 0 <= i < pre.len() && (#[trigger] pre[i]).radical == rad;
        assert(ext[i] == pre[i]);
        assert(spec_has_radical(ext, rad));
    }
    if rs[idx].radical == rad {
        assert(ext[idx] == rs[idx]);
        assert(spec_has_radical(ext, rad));
    }
}

/// A radical that no scanned record has owns an empty union.
proof fn lemma_union_absent(rs: Seq<ExpansionV>, rad: RadicalV)
    requires
        !spec_has_radical(rs, rad),
    ensures
        spec_kanji_union(rs, rad) == Set::<Seq<char>>::empty(),
{
    assert forall|x: Seq<char>| !spec_kanji_union(rs, rad).contains(x) by {
        if in_kanji_union(rs, rad, x) {
            let i = choose|i: int| 0 <= i < rs.len() && (#[trigger] rs[i]).radical == rad
                && rs[i].kanji.contains(x);
            assert(spec_has_radical(rs, rad));
        }
    }
    assert(spec_kanji_union(rs, rad) =~= Set::<Seq<char>>::empty());
}

/// Pushing an element adds it to a sequence's element set.
proof fn lemma_to_set_push<A>(s: Seq<A>, x: A)
    ensures
        s.push(x).to_set() == s.to_set().insert(x),
{
    let p = s.push(x);
    assert forall|y: A| p.to_set().contains(y) implies s.to_set().insert(x).contains(y) by {
        let i = choose|i: int| 0 <= i < p.len() && p[i] == y;
        if i < s.len() {
            assert(s[i] == y);
            assert(s.contains(y));
        }
    }
    assert forall|y: A| s.to_set().insert(x).contains(y) implies p.to_set().contains(y) by {
        if y == x {
            assert(p[s.len() as int] == x);
            assert(p.contains(y));
        } else {
            let i = choose|i: int| 0 <= i < s.len() && s[i] == y;
            assert(p[i] == y);
            assert(p.contains(y));
        }
    }
    assert(p.to_set() =~= s.to_set().insert(x));
}

/// Pushing a fresh element keeps a sequence duplicate-free and adds it to
/// the element set.
proof fn lemma_push_fresh<A>(s: Seq<A>, x: A)
    requires
        s.no_duplicates(),
        !s.contains(x),
    ensures
        s.push(x).no_duplicates(),
        s.push(x).to_set() == s.to_set().insert(x),
{
    let p = s.push(x);
    assert forall|i: int, j: int| 0 <= i < p.len() && 0 <= j < p.len() && i != j implies p[i]
        != p[j] by {
        if i < s.len() && j < s.len() {
            assert(s[i] == p[i] && s[j] == p[j]);
        } else if j == s.len() && i < s.len() {
            assert(p[i] == s[i]);
            if p[i] == x {
                assert(s.contains(x));
            }
        } else if i == s.len() && j < s.len() {
            assert(p[j] == s[j]);
            if p[j] == x {
                assert(s.contains(x));
            }
        }
    }
    assert forall|y: A| p.to_set().contains(y) implies s.to_set().insert(x).contains(y) by {
        let i = choose|i: int| 0 <= i < p.len() && p[i] == y;
        if i < s.len() {
            assert(s[i] == y);
            assert(s.contains(y));
        }
    }
    assert forall|y: A| s.to_set().insert(x).contains(y) implies p.to_set().contains(y) by {
        if y == x {
            assert(p[s.len() as int] == x);
            assert(p.contains(y));
        } else {
            let i = choose|i: int| 0 <= i < s.len() && s[i] == y;
            assert(p[i] == y);
            assert(p.contains(y));
        }
    }
    assert(p.to_set() =~= s.to_set().insert(x));
}

/// Copies a string; the view is kept.
fn clone_string(s: &String) -> (r: String)
    ensures
        r@ == s@,
{
    s.clone()
}

/// Copies an alternate; the view is kept.
fn clone_alternate(a: &Alternate) -> (r: Alternate)
    ensures
        r@ == a@,
{
    match a {
        Alternate::Image(s) => Alternate::Image(clone_string(s)),
        Alternate::Glyph(s) => Alternate::Glyph(clone_string(s)),
        Alternate::Absent => Alternate::Absent,
    }
}

/// Copies a radical; the view is kept.
fn clone_radical(r: &Radical) -> (out: Radical)
    ensures
        out@ == r@,
{
    Radical {
        glyph: clone_string(&r.glyph),
        strokes: r.strokes,
        alternate: clone_alternate(&r.alternate),
    }
}

/// Copies a kanji list; the view is kept.
fn clone_strings(v: &Vec<String>) -> (r: Vec<String>)
    ensures
        r.deep_view() == v.deep_view(),
{
    let mut out: Vec<String> = Vec::new();
    let mut i: usize = 0;
    proof {
        assert(out.deep_view() =~= v.deep_view().subrange(0, 0));
    }
    while i < v.len()
        invariant
            i <= v@.len(),
            out.deep_view() == v.deep_view().subrange(0, i as int),
        decreases v@.len() - i,
    {
        let ghost prev = out.deep_view();
        out.push(clone_string(&v[i]));
        proof {
            assert(out.deep_view() =~= prev.push(v.deep_view()[i as int]));
            assert(v.deep_view().subrange(0, i as int + 1) =~= v.deep_view().subrange(
                0,
                i as int,
            ).push(v.deep_view()[i as int]));
        }
        i = i + 1;
    }
    proof {
        assert(v.deep_view().subrange(0, i as int) =~= v.deep_view());
    }
    out
}

/// Compares two radicals as whole values: glyph, stroke count and
/// alternate must all match.
pub fn radical_eq(a: &Radical, b: &Radical) -> (r: bool)
    ensures
        r == (a@ == b@),
{
    let alt = match (&a.alternate, &b.alternate) {
        (Alternate::Image(x), Alternate::Image(y)) => x.eq(y),
        (Alternate::Glyph(x), Alternate::Glyph(y)) => x.eq(y),
        (Alternate::Absent, Alternate::Absent) => true,
        _ => false,
    };
    alt && a.strokes == b.strokes && a.glyph.eq(&b.glyph)
}

/// Whether the list already holds this exact string.
fn contains_string(v: &Vec<String>, s: &String) -> (r: bool)
    ensures
        r == v.deep_view().contains(s@),
{
    let mut i: usize = 0;
    while i < v.len()
        invariant
            i <= v@.len(),
            forall|k: int| 0 <= k < i ==> v.deep_view()[k] != s@,
        decreases v@.len() - i,
    {
        if v[i].eq(s) {
            assert(v.deep_view()[i as int] == s@);
            return true;
        }
        i = i + 1;
    }
    assert forall|k: int| 0 <= k < v.deep_view().len() implies v.deep_view()[k] != s@ by {}
    false
}

/// Adds every string of `src` that `dst` does not already hold; `dst`
/// stays duplicate-free and afterwards holds exactly the union.
fn merge_into(dst: &mut Vec<String>, src: &Vec<String>)
    requires
        old(dst).deep_view().no_duplicates(),
    ensures
        final(dst).deep_view().no_duplicates(),
        final(dst).deep_view().to_set() == old(dst).deep_view().to_set().union(
            src.deep_view().to_set(),
        ),
{
    let mut i: usize = 0;
    proof {
        assert(src.deep_view().subrange(0, 0).to_set() =~= Set::<Seq<char>>::empty());
        assert(dst.deep_view().to_set() =~= old(dst).deep_view().to_set().union(
            src.deep_view().subrange(0, 0).to_set(),
        ));
    }
    while i < src.len()
        invariant
            i <= src@.len(),
            dst.deep_view().no_duplicates(),
            dst.deep_view().to_set() == old(dst).deep_view().to_set().union(
                src.deep_view().subrange(0, i as int).to_set(),
            ),
        decreases src@.len() - i,
    {
        let ghost prev = dst.deep_view();
        let si = &src[i];
        proof {
            assert(src.deep_view().subrange(0, i as int + 1) =~= src.deep_view().subrange(
                0,
                i as int,
            ).push(src.deep_view()[i as int]));
            lemma_to_set_push(
                src.deep_view().subrange(0, i as int),
                src.deep_view()[i as int],
            );
        }
        if !contains_string(dst, si) {
            dst.push(clone_string(si));
            proof {
                assert(dst.deep_view() =~= prev.push(si@));
                lemma_push_fresh(prev, si@);
                assert(dst.deep_view().to_set() =~= old(dst).deep_view().to_set().union(
                    src.deep_view().subrange(0, i as int + 1).to_set(),
                ));
            }
        } else {
            proof {
                assert(dst.deep_view().to_set() =~= old(dst).deep_view().to_set().union(
                    src.deep_view().subrange(0, i as int + 1).to_set(),
                ));
            }
        }
        i = i + 1;
    }
    proof {
        assert(src.deep_view().subrange(0, i as int) =~= src.deep_view());
    }
}

/// Everything consolidation promises of its result, over the input it
/// was given: every kanji list is sorted and duplicate-free and holds
/// exactly the union of its radical's lists; exactly the input's radicals
/// appear, each once; and the records stand in the three-key order.
pub open spec fn is_consolidation_of(inp: Seq<ExpansionV>, out: Seq<ExpansionV>) -> bool {
    &&& forall|k: int| 0 <= k < out.len() ==> kanji_sorted((#[trigger] out[k]).kanji)
    &&& forall|k: int|
        0 <= k < out.len() ==> (#[trigger] out[k]).kanji.to_set() == spec_kanji_union(
            inp,
            out[k].radical,
        )
    &&& forall|rad: RadicalV|
        #[trigger] spec_has_radical(out, rad) == spec_has_radical(inp, rad)
    &&& forall|p: int, q: int|
        0 <= p < q < out.len() ==> (#[trigger] out[p]).radical != (#[trigger] out[q]).radical
    &&& forall|p: int, q: int|
        0 <= p < q < out.len() ==> order_le(#[trigger] out[p], #[trigger] out[q])
}

/// Merges membership records by radical identity.
///
/// Records whose radicals match in glyph, stroke count and alternate
/// collapse to one; each output record's kanji list is the deduplicated
/// union of its group's lists in ascending code-point order; the records
/// stand in the three-key order: ascending stroke count, then descending
/// kanji count, then ascending glyph order; and no radical appears twice.
pub fn consolidate(expansions: Vec<Expansion>) -> (r: Vec<Expansion>)
    ensures
        is_consolidation_of(expansions.deep_view(), r.deep_view()),
{
    let ghost inv = expansions.deep_view();
    let n = expansions.len();
    let mut groups: Vec<Expansion> = Vec::new();
    let mut idx: usize = 0;
    proof {
        assert(inv.subrange(0, 0).len() == 0);
        assert forall|rad: RadicalV|
            #[trigger] spec_has_radical(groups.deep_view(), rad) == spec_has_radical(
                inv.subrange(0, 0),
                rad,
            ) by {
            assert(groups.deep_view().len() == 0);
        }
    }
    while idx < n
        invariant
            inv == expansions.deep_view(),
            idx <= n == expansions@.len(),
            forall|p: int, q: int|
                0 <= p < q < groups.deep_view().len() ==> (#[trigger] groups.deep_view()[p]).radical
                    != (#[trigger] groups.deep_view()[q]).radical,
            forall|rad: RadicalV|
                #[trigger] spec_has_radical(groups.deep_view(), rad) == spec_has_radical(
                    inv.subrange(0, idx as int),
                    rad,
                ),
            forall|k: int|
                0 <= k < groups.deep_view().len() ==> (#[trigger] groups.deep_view()[k]).kanji.no_duplicates(),
            forall|k: int|
                0 <= k < groups.deep_view().len() ==> (#[trigger] groups.deep_view()[k]).kanji.to_set()
                    == spec_kanji_union(inv.subrange(0, idx as int), groups.deep_view()[k].radical),
        decreases n - idx,
    {
        let glen = groups.len();
        let mut j: usize = 0;
        let mut found = false;
        while j < glen && !found
            invariant
                glen == groups@.len(),
                j <= glen,
                inv == expansions.deep_view(),
                idx < inv.len(),
                !found ==> forall|t: int|
                    0 <= t < j ==> (#[trigger] groups.deep_view()[t]).radical != inv[idx as int].radical,
                found ==> j < glen && groups.deep_view()[j as int].radical == inv[idx as int].radical,
            decreases glen - j, (if found { 0int } else { 1int }),
        {
            if radical_eq(&groups[j].radical, &expansions[idx].radical) {
                found = true;
            } else {
                j = j + 1;
            }
        }
        let ghost old_groups = groups.deep_view();
        let ghost rad = inv[idx as int].radical;
        if found {
            let mut merged = clone_strings(&groups[j].kanji);
            merge_into(&mut merged, &expansions[idx].kanji);
            let new_rad = clone_radical(&groups[j].radical);
            let new_exp = Expansion { radical: new_rad, kanji: merged };
            groups[j] = new_exp;
            proof {
                assert(groups.deep_view() =~= old_groups.update(
                    j as int,
                    ExpansionV {
                        radical: old_groups[j as int].radical,
                        kanji: groups.deep_view()[j as int].kanji,
                    },
                ));
                lemma_has_extend(inv, idx as int, rad);
                assert forall|rd: RadicalV|
                    #[trigger] spec_has_radical(groups.deep_view(), rd) == spec_has_radical(
                        inv.subrange(0, idx as int + 1),
                        rd,
                    ) by {
                    lemma_has_extend(inv, idx as int, rd);
                    assert forall|t: int|
                        0 <= t < groups.deep_view().len() implies (#[trigger] groups.deep_view()[t]).radical
                        == old_groups[t].radical by {}
                    if spec_has_radical(groups.deep_view(), rd) {
                        let t = choose|t: int|
                            0 <= t < groups.deep_view().len() && (#[trigger] groups.deep_view()[t]).radical
                                == rd;
                        assert(old_groups[t].radical == rd);
                        assert(spec_has_radical(old_groups, rd));
                    }
                    if spec_has_radical(old_groups, rd) {
                        let t = choose|t: int|
                            0 <= t < old_groups.len() && (#[trigger] old_groups[t]).radical == rd;
                        assert(groups.deep_view()[t].radical == rd);
                        assert(spec_has_radical(groups.deep_view(), rd));
                    }
                }
                assert forall|k: int|
                    0 <= k < groups.deep_view().len() implies (#[trigger] groups.deep_view()[k]).kanji.to_set()
                    == spec_kanji_union(
                    inv.subrange(0, idx as int + 1),
                    groups.deep_view()[k].radical,
                ) by {
                    lemma_union_extend(inv, idx as int, groups.deep_view()[k].radical);
                    if k != j {
                        assert(groups.deep_view()[k] == old_groups[k]);
                        assert(groups.deep_view()[k].radical != rad);
                    } else {
                        assert(groups.deep_view()[j as int].radical == rad);
                    }
                }
            }
        } else {
            let mut merged: Vec<String> = Vec::new();
            proof {
                assert(merged.deep_view() =~= Seq::<Seq<char>>::empty());
                assert(merged.deep_view().no_duplicates());
            }
            merge_into(&mut merged, &expansions[idx].kanji);
            let new_rad = clone_radical(&expansions[idx].radical);
            let new_exp = Expansion { radical: new_rad, kanji: merged };
            let ghost new_v = new_exp@;
            groups.push(new_exp);
            proof {
                assert(groups.deep_view() =~= old_groups.push(new_v));
                assert(new_v.radical == rad);
                if spec_has_radical(old_groups, rad) {
                    let t = choose|t: int|
                        0 <= t < old_groups.len() && (#[trigger] old_groups[t]).radical == rad;
                }
                assert(!spec_has_radical(old_groups, rad));
                assert(!spec_has_radical(inv.subrange(0, idx as int), rad));
                lemma_union_absent(inv.subrange(0, idx as int), rad);
                assert(new_v.kanji.to_set() =~= inv[idx as int].kanji.to_set());
                lemma_has_extend(inv, idx as int, rad);
                assert forall|rd: RadicalV|
                    #[trigger] spec_has_radical(groups.deep_view(), rd) == spec_has_radical(
                        inv.subrange(0, idx as int + 1),
                        rd,
                    ) by {
                    lemma_has_extend(inv, idx as int, rd);
                    if spec_has_radical(groups.deep_view(), rd) {
                        let t = choose|t: int|
                            0 <= t < groups.deep_view().len() && (#[trigger] groups.deep_view()[t]).radical
                                == rd;
                        if t < old_groups.len() {
                            assert(old_groups[t].radical == rd);
                            assert(spec_has_radical(old_groups, rd));
                        } else {
                            assert(groups.deep_view()[t] == new_v);
                        }
                    }
                    if spec_has_radical(old_groups, rd) {
                        let t = choose|t: int|
                            0 <= t < old_groups.len() && (#[trigger] old_groups[t]).radical == rd;
                        assert(groups.deep_view()[t].radical == rd);
                        assert(spec_has_radical(groups.deep_view(), rd));
                    }
                    if rd == rad {
                        assert(groups.deep_view()[old_groups.len() as int] == new_v);
                        assert(spec_has_radical(groups.deep_view(), rd));
                    }
                }
                assert forall|k: int|
                    0 <= k < groups.deep_view().len() implies (#[trigger] groups.deep_view()[k]).kanji.to_set()
                    == spec_kanji_union(
                    inv.subrange(0, idx as int + 1),
                    groups.deep_view()[k].radical,
                ) by {
                    lemma_union_extend(inv, idx as int, groups.deep_view()[k].radical);
                    if k < old_groups.len() {
                        assert(groups.deep_view()[k] == old_groups[k]);
                        assert(groups.deep_view()[k].radical != rad);
                    } else {
                        assert(groups.deep_view()[k] == new_v);
                        assert(spec_kanji_union(inv.subrange(0, idx as int), rad).union(
                            inv[idx as int].kanji.to_set(),
                        ) =~= inv[idx as int].kanji.to_set());
                    }
                }
                assert forall|p: int, q: int|
                    0 <= p < q < groups.deep_view().len() implies (#[trigger] groups.deep_view()[p]).radical
                    != (#[trigger] groups.deep_view()[q]).radical by {
                    if q == old_groups.len() {
                        assert(groups.deep_view()[p] == old_groups[p]);
                    }
                }
            }
        }
        idx = idx + 1;
    }
    proof {
        assert(inv.subrange(0, idx as int) =~= inv);
    }
    let glen = groups.len();
    let mut i: usize = 0;
    while i < glen
        invariant
            glen == groups@.len(),
            i <= glen,
            inv == expansions.deep_view(),
            forall|p: int, q: int|
                0 <= p < q < groups.deep_view().len() ==> (#[trigger] groups.deep_view()[p]).radical
                    != (#[trigger] groups.deep_view()[q]).radical,
            forall|rad: RadicalV|
                #[trigger] spec_has_radical(groups.deep_view(), rad) == spec_has_radical(inv, rad),
            forall|k: int|
                0 <= k < groups.deep_view().len() ==> (#[trigger] groups.deep_view()[k]).kanji.no_duplicates(),
            forall|k: int|
                0 <= k < groups.deep_view().len() ==> (#[trigger] groups.deep_view()[k]).kanji.to_set()
                    == spec_kanji_union(inv, groups.deep_view()[k].radical),
            forall|k: int|
                0 <= k < i ==> kanji_sorted((#[trigger] groups.deep_view()[k]).kanji),
        decreases glen - i,
    {
        let ghost old_groups = groups.deep_view();
        let sorted_k = sort_strings(clone_strings(&groups[i].kanji));
        let new_rad = clone_radical(&groups[i].radical);
        let new_exp = Expansion { radical: new_rad, kanji: sorted_k };
        let ghost new_v = new_exp@;
        groups[i] = new_exp;
        proof {
            broadcast use vstd::seq_lib::group_to_multiset_ensures;

            assert(groups.deep_view() =~= old_groups.update(i as int, new_v));
            let oldk = old_groups[i as int].kanji;
            let newk = new_v.kanji;
            assert(newk.to_multiset() == oldk.to_multiset());
            assert forall|x: Seq<char>| newk.contains(x) == oldk.contains(x) by {
                assert(newk.contains(x) <==> newk.to_multiset().count(x) > 0);
                assert(oldk.contains(x) <==> oldk.to_multiset().count(x) > 0);
            }
            assert(newk.to_set() =~= oldk.to_set());
            oldk.lemma_multiset_has_no_duplicates();
            assert(forall|x: Seq<char>|
                newk.to_multiset().contains(x) ==> newk.to_multiset().count(x) == 1);
            newk.lemma_multiset_has_no_duplicates_conv();
            assert(kanji_sorted(newk));
            assert forall|rd: RadicalV|
                #[trigger] spec_has_radical(groups.deep_view(), rd) == spec_has_radical(
                    old_groups,
                    rd,
                ) by {
                if spec_has_radical(groups.deep_view(), rd) {
                    let t = choose|t: int|
                        0 <= t < groups.deep_view().len() && (#[trigger] groups.deep_view()[t]).radical
                            == rd;
                    assert(old_groups[t].radical == rd);
                    assert(spec_has_radical(old_groups, rd));
                }
                if spec_has_radical(old_groups, rd) {
                    let t = choose|t: int|
                        0 <= t < old_groups.len() && (#[trigger] old_groups[t]).radical == rd;
                    assert(groups.deep_view()[t].radical == rd);
                    assert(spec_has_radical(groups.deep_view(), rd));
                }
            }
        }
        i = i + 1;
    }
    let ghost pre_sort = groups.deep_view();
    let out = sort_expansions(groups);
    proof {
        broadcast use vstd::seq_lib::group_to_multiset_ensures;

        let outv = out.deep_view();
        assert(outv.to_multiset() == pre_sort.to_multiset());
        assert forall|x: ExpansionV| outv.contains(x) == pre_sort.contains(x) by {
            assert(outv.contains(x) <==> outv.to_multiset().count(x) > 0);
            assert(pre_sort.contains(x) <==> pre_sort.to_multiset().count(x) > 0);
        }
        assert forall|k: int|
            0 <= k < outv.len() implies kanji_sorted((#[trigger] outv[k]).kanji) && outv[k].kanji.to_set()
            == spec_kanji_union(inv, outv[k].radical) by {
            assert(outv.contains(outv[k]));
            assert(pre_sort.contains(outv[k]));
            let t = choose|t: int| 0 <= t < pre_sort.len() && pre_sort[t] == outv[k];
            assert(kanji_sorted(pre_sort[t].kanji));
        }
        assert forall|rad: RadicalV|
            #[trigger] spec_has_radical(outv, rad) == spec_has_radical(inv, rad) by {
            if spec_has_radical(outv, rad) {
                let t = choose|t: int| 0 <= t < outv.len() && (#[trigger] outv[t]).radical == rad;
                assert(pre_sort.contains(outv[t]));
                let u = choose|u: int| 0 <= u < pre_sort.len() && pre_sort[u] == outv[t];
                assert(spec_has_radical(pre_sort, rad));
            }
            if spec_has_radical(pre_sort, rad) {
                let t = choose|t: int|
                    0 <= t < pre_sort.len() && (#[trigger] pre_sort[t]).radical == rad;
                assert(outv.contains(pre_sort[t]));
                let u = choose|u: int| 0 <= u < outv.len() && outv[u] == pre_sort[t];
                assert(spec_has_radical(outv, rad));
            }
        }
        assert(pre_sort.no_duplicates()) by {
            assert forall|p: int, q: int|
                0 <= p < pre_sort.len() && 0 <= q < pre_sort.len() && p != q implies pre_sort[p]
                != pre_sort[q] by {
                if p < q {
                    assert(pre_sort[p].radical != pre_sort[q].radical);
                } else {
                    assert(pre_sort[q].radical != pre_sort[p].radical);
                }
            }
        }
        pre_sort.lemma_multiset_has_no_duplicates();
        assert(forall|x: ExpansionV|
            outv.to_multiset().contains(x) ==> outv.to_multiset().count(x) == 1);
        outv.lemma_multiset_has_no_duplicates_conv();
        assert forall|p: int, q: int|
            0 <= p < q < outv.len() implies (#[trigger] outv[p]).radical != (
        #[trigger] outv[q]).radical by {
            if outv[p].radical == outv[q].radical {
                assert(outv[p] != outv[q]);
                assert(pre_sort.contains(outv[p]));
                assert(pre_sort.contains(outv[q]));
                let a = choose|a: int| 0 <= a < pre_sort.len() && pre_sort[a] == outv[p];
                let b = choose|b: int| 0 <= b < pre_sort.len() && pre_sort[b] == outv[q];
                assert(a != b);
                if a < b {
                    assert(pre_sort[a].radical != pre_sort[b].radical);
                } else {
                    assert(pre_sort[b].radical != pre_sort[a].radical);
                }
            }
        }
    }
    out
}

} // verus!
