//! The stated properties of the transform, proved against the scan model:
//! how a flush partitions and orders a group's entries, that the scan
//! conserves the lines it is given, how pass-through lines keep their
//! order, and the guards of the mode machine.

use vstd::prelude::*;
use crate::order::{lex_le, lemma_lex_le_total, lemma_lex_le_trans};
use crate::scan::{
    EntryModel, insort, sort_entries, keep, raws, flush_model, next_mode, scan_model,
    transform_spec, pre_effects, capture_entry, lemma_scan_step, ReadMode,
};
use crate::file_string::{
    is_pre_group_spec, has_block_name_spec, is_start_files_spec, is_end_files_spec,
    is_start_parent_spec, is_end_parent_spec,
};
use vstd::multiset::Multiset;

verus! {

/// The names of `s` are non-decreasing in the ordinal order.
pub open spec fn sorted_names(s: Seq<EntryModel>) -> bool {
    forall|i: int, j: int| 0 <= i < j < s.len() ==> lex_le(s[i].name, s[j].name)
}

/// Inserting keeps any lower bound on the names.
proof fn lemma_insort_lb(x: EntryModel, s: Seq<EntryModel>, b: Seq<char>)
    requires
        lex_le(b, x.name),
        forall|k: int| 0 <= k < s.len() ==> lex_le(b, #[trigger] s[k].name),
    ensures
        forall|k: int|
            0 <= k < insort(x, s).len() ==> lex_le(b, #[trigger] insort(x, s)[k].name),
    decreases s.len(),
{
    if s.len() == 0 {
    } else if lex_le(x.name, s[0].name) {
    } else {
        assert(forall|k: int|
            0 <= k < s.drop_first().len() ==> lex_le(b, #[trigger] s.drop_first()[k].name));
        lemma_insort_lb(x, s.drop_first(), b);
        let r = seq![s[0]] + insort(x, s.drop_first());
        assert(insort(x, s) == r);
        assert(forall|k: int| 1 <= k < r.len() ==> r[k] == insort(x, s.drop_first())[k - 1]);
    }
}

/// Inserting into a sorted run keeps it sorted.
proof fn lemma_insort_sorted(x: EntryModel, s: Seq<EntryModel>)
    requires
        sorted_names(s),
    ensures
        sorted_names(insort(x, s)),
    decreases s.len(),
{
    if s.len() == 0 {
    } else if lex_le(x.name, s[0].name) {
        let r = seq![x] + s;
        assert(insort(x, s) == r);
        assert forall|j: int| 1 <= j < r.len() implies lex_le(x.name, r[j].name) by {
            if j > 1 {
                lemma_lex_le_trans(x.name, s[0].name, s[j - 1].name);
            }
        }
        assert forall|i: int, j: int| 0 <= i < j < r.len() implies lex_le(
            r[i].name,
            r[j].name,
        ) by {
            if i > 0 {
                assert(r[i] == s[i - 1] && r[j] == s[j - 1]);
            }
        }
    } else {
        lemma_lex_le_total(x.name, s[0].name);
        let s1 = s.drop_first();
        assert(forall|i: int, j: int|
            0 <= i < j < s1.len() ==> lex_le(#[trigger] s1[i].name, #[trigger] s1[j].name));
        lemma_insort_sorted(x, s1);
        assert(forall|k: int| 0 <= k < s1.len() ==> lex_le(s[0].name, #[trigger] s1[k].name));
        lemma_insort_lb(x, s1, s[0].name);
        let r = seq![s[0]] + insort(x, s1);
        assert(insort(x, s) == r);
        assert forall|i: int, j: int| 0 <= i < j < r.len() implies lex_le(
            r[i].name,
            r[j].name,
        ) by {
            if i > 0 {
                assert(r[i] == insort(x, s1)[i - 1] && r[j] == insort(x, s1)[j - 1]);
            } else {
                assert(r[j] == insort(x, s1)[j - 1]);
            }
        }
    }
}

/// The stable sort of the accumulator is sorted by name.
pub proof fn lemma_sort_entries_sorted(s: Seq<EntryModel>)
    ensures
        sorted_names(sort_entries(s)),
    decreases s.len(),
{
    if s.len() > 0 {
        lemma_sort_entries_sorted(s.drop_first());
        lemma_insort_sorted(s[0], sort_entries(s.drop_first()));
    }
}

/// Partitioning keeps any lower bound on the names.
proof fn lemma_keep_lb(s: Seq<EntryModel>, reg: Set<Seq<char>>, member: bool, b: Seq<char>)
    requires
        forall|k: int| 0 <= k < s.len() ==> lex_le(b, #[trigger] s[k].name),
    ensures
        forall|k: int|
            0 <= k < keep(s, reg, member).len() ==> lex_le(
                b,
                #[trigger] keep(s, reg, member)[k].name,
            ),
    decreases s.len(),
{
    if s.len() > 0 {
        assert(forall|k: int|
            0 <= k < s.drop_first().len() ==> lex_le(b, #[trigger] s.drop_first()[k].name));
        lemma_keep_lb(s.drop_first(), reg, member, b);
        if reg.contains(s[0].id) == member {
            let r = seq![s[0]] + keep(s.drop_first(), reg, member);
            assert(keep(s, reg, member) == r);
            assert(forall|k: int|
                1 <= k < r.len() ==> r[k] == keep(s.drop_first(), reg, member)[k - 1]);
        }
    }
}

/// Every entry a partition run holds has the membership the run asks for,
/// and a sorted run stays sorted.
pub proof fn lemma_keep_props(s: Seq<EntryModel>, reg: Set<Seq<char>>, member: bool)
    ensures
        forall|k: int|
            0 <= k < keep(s, reg, member).len() ==> reg.contains(
                #[trigger] keep(s, reg, member)[k].id,
            ) == member,
        sorted_names(s) ==> sorted_names(keep(s, reg, member)),
    decreases s.len(),
{
    if s.len() > 0 {
        let s1 = s.drop_first();
        if sorted_names(s) {
            assert(forall|i: int, j: int|
                0 <= i < j < s1.len() ==> lex_le(#[trigger] s1[i].name, #[trigger] s1[j].name));
        }
        lemma_keep_props(s1, reg, member);
        if reg.contains(s[0].id) == member {
            let r = seq![s[0]] + keep(s1, reg, member);
            assert(keep(s, reg, member) == r);
            assert(forall|k: int| 1 <= k < r.len() ==> r[k] == keep(s1, reg, member)[k - 1]);
            if sorted_names(s) {
                assert(forall|k: int|
                    0 <= k < s1.len() ==> lex_le(s[0].name, #[trigger] s1[k].name));
                lemma_keep_lb(s1, reg, member, s[0].name);
                assert forall|i: int, j: int| 0 <= i < j < r.len() implies lex_le(
                    r[i].name,
                    r[j].name,
                ) by {
                    if i > 0 {
                        assert(r[i] == keep(s1, reg, member)[i - 1]);
                        assert(r[j] == keep(s1, reg, member)[j - 1]);
                    } else {
                        assert(r[j] == keep(s1, reg, member)[j - 1]);
                    }
                }
            }
        }
    }
}

/// Partition correctness: a flush emits first exactly the sorted run of
/// entries whose id is not in the registry, then the sorted run of those
/// whose id is; each run is alphabetically non-decreasing by name.
pub proof fn lemma_flush_partition(acc: Seq<EntryModel>, reg: Set<Seq<char>>)
    ensures
        flush_model(acc, reg) == raws(keep(sort_entries(acc), reg, false)) + raws(
            keep(sort_entries(acc), reg, true),
        ),
        forall|k: int|
            0 <= k < keep(sort_entries(acc), reg, false).len() ==> !reg.contains(
                #[trigger] keep(sort_entries(acc), reg, false)[k].id,
            ),
        forall|k: int|
            0 <= k < keep(sort_entries(acc), reg, true).len() ==> reg.contains(
                #[trigger] keep(sort_entries(acc), reg, true)[k].id,
            ),
        sorted_names(keep(sort_entries(acc), reg, false)),
        sorted_names(keep(sort_entries(acc), reg, true)),
{
    lemma_sort_entries_sorted(acc);
    lemma_keep_props(sort_entries(acc), reg, false);
    lemma_keep_props(sort_entries(acc), reg, true);
}

proof fn lemma_insort_multiset(x: EntryModel, s: Seq<EntryModel>)
    ensures
        insort(x, s).to_multiset() == s.to_multiset().insert(x),
    decreases s.len(),
{
    broadcast use vstd::seq_lib::group_to_multiset_ensures;

    if s.len() == 0 {
        assert(insort(x, s) =~= Seq::<EntryModel>::empty().push(x));
        assert(s.to_multiset() =~= Multiset::<EntryModel>::empty());
    } else if lex_le(x.name, s[0].name) {
        assert(insort(x, s) =~= s.insert(0, x));
        assert(s.insert(0, x).remove(0) =~= s);
        assert(s.insert(0, x)[0] == x);
        assert(insort(x, s).to_multiset().remove(x) =~= s.to_multiset());
        assert(insort(x, s).to_multiset().count(x) > 0) by {
            assert(insort(x, s).contains(x));
        }
        assert(insort(x, s).to_multiset() =~= s.to_multiset().insert(x));
    } else {
        let s1 = s.drop_first();
        lemma_insort_multiset(x, s1);
        let r = seq![s[0]] + insort(x, s1);
        assert(insort(x, s) == r);
        assert(r =~= insort(x, s1).insert(0, s[0]));
        assert(r.remove(0) =~= insort(x, s1));
        assert(r.to_multiset().remove(s[0]) =~= insort(x, s1).to_multiset());
        assert(r.to_multiset().count(s[0]) > 0) by {
            assert(r.contains(s[0]));
        }
        assert(s.remove(0) =~= s1);
        assert(s.to_multiset().remove(s[0]) =~= s1.to_multiset());
        assert(s.to_multiset().count(s[0]) > 0) by {
            assert(s.contains(s[0]));
        }
        assert(r.to_multiset() =~= s.to_multiset().insert(x));
    }
}

proof fn lemma_sort_multiset(s: Seq<EntryModel>)
    ensures
        sort_entries(s).to_multiset() == s.to_multiset(),
    decreases s.len(),
{
    broadcast use vstd::seq_lib::group_to_multiset_ensures;

    if s.len() > 0 {
        let s1 = s.drop_first();
        lemma_sort_multiset(s1);
        lemma_insort_multiset(s[0], sort_entries(s1));
        assert(s.remove(0) =~= s1);
        assert(s.to_multiset().remove(s[0]) =~= s1.to_multiset());
        assert(s.to_multiset().count(s[0]) > 0) by {
            assert(s.contains(s[0]));
        }
        assert(sort_entries(s).to_multiset() =~= s.to_multiset());
    }
}

proof fn lemma_keep_multiset(s: Seq<EntryModel>, reg: Set<Seq<char>>)
    ensures
        keep(s, reg, false).to_multiset().add(keep(s, reg, true).to_multiset())
            == s.to_multiset(),
    decreases s.len(),
{
    broadcast use vstd::seq_lib::group_to_multiset_ensures;

    if s.len() == 0 {
        assert(keep(s, reg, false) =~= Seq::<EntryModel>::empty());
        assert(keep(s, reg, true) =~= Seq::<EntryModel>::empty());
        assert(s.to_multiset() =~= Multiset::<EntryModel>::empty());
        assert(keep(s, reg, false).to_multiset().add(keep(s, reg, true).to_multiset())
            =~= s.to_multiset());
    } else {
        let s1 = s.drop_first();
        lemma_keep_multiset(s1, reg);
        let member = reg.contains(s[0].id);
        assert(keep(s, reg, member) == seq![s[0]] + keep(s1, reg, member));
        assert(keep(s, reg, !member) == keep(s1, reg, !member));
        assert(seq![s[0]] + keep(s1, reg, member) =~= keep(s1, reg, member).insert(0, s[0]));
        assert(keep(s1, reg, member).insert(0, s[0]).remove(0) =~= keep(s1, reg, member));
        assert(keep(s, reg, member).to_multiset().remove(s[0]) =~= keep(
            s1,
            reg,
            member,
        ).to_multiset());
        assert(keep(s, reg, member).to_multiset().count(s[0]) > 0) by {
            assert(keep(s, reg, member).contains(s[0]));
        }
        assert(s.remove(0) =~= s1);
        assert(s.to_multiset().remove(s[0]) =~= s1.to_multiset());
        assert(s.to_multiset().count(s[0]) > 0) by {
            assert(s.contains(s[0]));
        }
        assert(keep(s, reg, member).to_multiset() =~= keep(s1, reg, member).to_multiset().insert(
            s[0],
        ));
        assert(s.to_multiset() =~= s1.to_multiset().insert(s[0]));
        assert(keep(s, reg, false).to_multiset().add(keep(s, reg, true).to_multiset())
            =~= s.to_multiset());
    }
}

/// Sequences with the same entry multiset have the same multiset of
/// verbatim lines.
proof fn lemma_raws_multiset(s: Seq<EntryModel>, t: Seq<EntryModel>)
    requires
        s.to_multiset() == t.to_multiset(),
    ensures
        raws(s).to_multiset() == raws(t).to_multiset(),
    decreases s.len(),
{
    broadcast use vstd::seq_lib::group_to_multiset_ensures;

    if s.len() == 0 {
        assert(s.to_multiset().len() == s.len());
        assert(t.to_multiset().len() == t.len());
        assert(t.len() == 0);
        assert(raws(s) =~= raws(t));
    } else {
        let x = s.last();
        assert(s.to_multiset().count(x) > 0) by {
            assert(s.contains(x));
        }
        assert(t.contains(x));
        let j = choose|j: int| 0 <= j < t.len() && t[j] == x;
        assert(s.drop_last() =~= s.remove(s.len() - 1));
        assert(s.drop_last().to_multiset() =~= s.to_multiset().remove(x));
        assert(t.remove(j).to_multiset() =~= t.to_multiset().remove(x));
        lemma_raws_multiset(s.drop_last(), t.remove(j));
        assert(raws(s) =~= raws(s.drop_last()).push(x.raw));
        assert(raws(t.remove(j)) =~= raws(t).remove(j));
        assert(raws(t).remove(j).to_multiset() =~= raws(t).to_multiset().remove(raws(t)[j]));
        assert(raws(t)[j] == x.raw);
        assert(raws(t).to_multiset().count(x.raw) > 0) by {
            assert(raws(t).contains(raws(t)[j]));
        }
        assert(raws(s).to_multiset() =~= raws(s.drop_last()).to_multiset().insert(x.raw));
        assert(raws(s).to_multiset() =~= raws(t).to_multiset());
    }
}

/// A flush emits a permutation of the verbatim lines of the accumulator.
pub proof fn lemma_flush_multiset(acc: Seq<EntryModel>, reg: Set<Seq<char>>)
    ensures
        flush_model(acc, reg).to_multiset() == raws(acc).to_multiset(),
        flush_model(acc, reg).len() == acc.len(),
{
    broadcast use vstd::seq_lib::group_to_multiset_ensures;

    let sorted = sort_entries(acc);
    let f = keep(sorted, reg, false);
    let t = keep(sorted, reg, true);
    vstd::seq_lib::lemma_multiset_commutative(raws(f), raws(t));
    assert(raws(f) + raws(t) =~= raws(f + t));
    vstd::seq_lib::lemma_multiset_commutative(f, t);
    lemma_keep_multiset(sorted, reg);
    lemma_sort_multiset(acc);
    assert((f + t).to_multiset() == acc.to_multiset());
    lemma_raws_multiset(f + t, acc);
    assert(flush_model(acc, reg).to_multiset() == raws(acc).to_multiset());
    assert((f + t).to_multiset().len() == (f + t).len());
    assert(acc.to_multiset().len() == acc.len());
    assert(flush_model(acc, reg).len() == raws(f).len() + raws(t).len());
    assert(raws(acc).len() == acc.len());
}

/// No scanned prefix abandons captured entries: whenever a children list
/// opens, the accumulator is empty. Every well-formed manifest satisfies
/// this; only a group nested inside another group's children span breaks
/// it.
pub open spec fn no_abandoned_capture(lines: Seq<Seq<char>>) -> bool {
    forall|i: int|
        0 <= i < lines.len() ==> {
            let st = scan_model(lines.take(i));
            (st.mode == ReadMode::PreGroup && is_start_parent_spec(#[trigger] lines[i]))
                ==> st.acc.len() == 0
        }
}

proof fn lemma_scan_prefix_conservation(lines: Seq<Seq<char>>, n: int)
    requires
        0 <= n <= lines.len(),
        no_abandoned_capture(lines),
    ensures
        scan_model(lines.take(n)).out.to_multiset().add(
            raws(scan_model(lines.take(n)).acc).to_multiset(),
        ) == lines.take(n).to_multiset(),
        scan_model(lines.take(n)).out.len() + scan_model(lines.take(n)).acc.len() == n,
    decreases n,
{
    broadcast use vstd::seq_lib::group_to_multiset_ensures;

    if n == 0 {
        assert(lines.take(0) =~= Seq::<Seq<char>>::empty());
        let st = scan_model(lines.take(0));
        assert(st.out =~= Seq::<Seq<char>>::empty());
        assert(raws(st.acc) =~= Seq::<Seq<char>>::empty());
        assert(st.out.to_multiset().add(raws(st.acc).to_multiset()) =~= lines.take(
            0,
        ).to_multiset());
    } else {
        lemma_scan_prefix_conservation(lines, n - 1);
        lemma_scan_step(lines, n - 1);
        let st = scan_model(lines.take(n - 1));
        let lv = lines[n - 1];
        let st1 = pre_effects(st, lv);
        // the pre-transition effects keep the conservation sum
        if st.mode == ReadMode::PreGroup && is_start_parent_spec(lv) {
            assert(st.acc.len() == 0);
            assert(raws(st.acc) =~= Seq::<Seq<char>>::empty());
            assert(raws(st1.acc) =~= Seq::<Seq<char>>::empty());
        } else if st.mode == ReadMode::Group && is_end_parent_spec(lv) {
            lemma_flush_multiset(st.acc, st.registry);
            vstd::seq_lib::lemma_multiset_commutative(st.out, flush_model(st.acc, st.registry));
            assert(raws(st1.acc) =~= Seq::<Seq<char>>::empty());
        }
        assert(st1.out.to_multiset().add(raws(st1.acc).to_multiset()) =~= lines.take(
            n - 1,
        ).to_multiset());
        assert(st1.out.len() + st1.acc.len() == n - 1);
        // the capture or the verbatim emission adds exactly the line
        let stn = scan_model(lines.take(n));
        let m2 = next_mode(st.mode, lv, st.prev);
        if m2 == ReadMode::Group && capture_entry(lv) is Some {
            let e = capture_entry(lv).unwrap();
            assert(e.raw == lv);
            assert(stn.out == st1.out && stn.acc == st1.acc.push(e));
            assert(raws(stn.acc) =~= raws(st1.acc).push(lv));
        } else {
            assert(stn.out == st1.out.push(lv) && stn.acc == st1.acc);
        }
        assert(lines.take(n) =~= lines.take(n - 1).push(lv));
        assert(stn.out.to_multiset().add(raws(stn.acc).to_multiset()) =~= lines.take(
            n,
        ).to_multiset());
    }
}

/// Line conservation: on a run that never abandons a capture and ends with
/// an empty accumulator, the transform emits exactly as many lines as it
/// was given, and the multiset of line contents is unchanged.
pub proof fn lemma_line_conservation(lines: Seq<Seq<char>>)
    requires
        no_abandoned_capture(lines),
        scan_model(lines).acc.len() == 0,
    ensures
        transform_spec(lines).len() == lines.len(),
        transform_spec(lines).to_multiset() == lines.to_multiset(),
{
    broadcast use vstd::seq_lib::group_to_multiset_ensures;

    lemma_scan_prefix_conservation(lines, lines.len() as int);
    assert(lines.take(lines.len() as int) =~= lines);
    let st = scan_model(lines);
    assert(raws(st.acc) =~= Seq::<Seq<char>>::empty());
    assert(raws(st.acc).to_multiset() =~= Multiset::<Seq<char>>::empty());
    assert(st.out.to_multiset() =~= st.out.to_multiset().add(raws(st.acc).to_multiset()));
}

/// The output lines not emitted by a flush, in their output order.
pub open spec fn drop_tagged(out: Seq<Seq<char>>, tags: Seq<bool>) -> Seq<Seq<char>>
    decreases out.len(),
{
    if out.len() == 0 {
        Seq::empty()
    } else {
        let rest = drop_tagged(out.drop_last(), tags.drop_last());
        if tags.last() {
            rest
        } else {
            rest.push(out.last())
        }
    }
}

proof fn lemma_drop_tagged_append_true(out: Seq<Seq<char>>, tags: Seq<bool>, fl: Seq<Seq<char>>)
    requires
        tags.len() == out.len(),
    ensures
        drop_tagged(out + fl, tags + Seq::new(fl.len(), |i: int| true)) == drop_tagged(out, tags),
    decreases fl.len(),
{
    let trues = Seq::new(fl.len(), |i: int| true);
    if fl.len() == 0 {
        assert(out + fl =~= out);
        assert(tags + trues =~= tags);
    } else {
        assert((out + fl).drop_last() =~= out + fl.drop_last());
        assert((tags + trues).drop_last() =~= tags + Seq::new((fl.len() - 1) as nat, |i: int| true));
        assert((tags + trues).last());
        lemma_drop_tagged_append_true(out, tags, fl.drop_last());
    }
}

/// Pass-through correctness: the scan's output, restricted to the lines no
/// flush emitted, is exactly the sequence of lines the scan passed through
/// verbatim, in their input order.
pub proof fn lemma_pass_through(lines: Seq<Seq<char>>)
    ensures
        scan_model(lines).out.len() == scan_model(lines).tags.len(),
        drop_tagged(scan_model(lines).out, scan_model(lines).tags) == scan_model(lines).passed,
    decreases lines.len(),
{
    if lines.len() == 0 {
        assert(drop_tagged(Seq::empty(), Seq::empty()) =~= Seq::<Seq<char>>::empty());
    } else {
        lemma_pass_through(lines.drop_last());
        let st = scan_model(lines.drop_last());
        let lv = lines.last();
        let st1 = pre_effects(st, lv);
        if st.mode == ReadMode::Group && is_end_parent_spec(lv) {
            lemma_drop_tagged_append_true(st.out, st.tags, flush_model(st.acc, st.registry));
        }
        assert(st1.out.len() == st1.tags.len());
        assert(drop_tagged(st1.out, st1.tags) == st1.passed);
        let stn = scan_model(lines);
        let m2 = next_mode(st.mode, lv, st.prev);
        if m2 == ReadMode::Group && capture_entry(lv) is Some {
            assert(stn.out == st1.out && stn.tags == st1.tags && stn.passed == st1.passed);
        } else {
            assert(stn.out == st1.out.push(lv) && stn.tags == st1.tags.push(false));
            assert(stn.passed == st1.passed.push(lv));
            assert(st1.out.push(lv).drop_last() =~= st1.out);
            assert(st1.tags.push(false).drop_last() =~= st1.tags);
        }
    }
}

proof fn lemma_keep_concat(a: Seq<EntryModel>, b: Seq<EntryModel>, reg: Set<Seq<char>>, member: bool)
    ensures
        keep(a + b, reg, member) == keep(a, reg, member) + keep(b, reg, member),
    decreases a.len(),
{
    if a.len() == 0 {
        assert(a + b =~= b);
        assert(keep(a, reg, member) =~= Seq::<EntryModel>::empty());
        assert(keep(a, reg, member) + keep(b, reg, member) =~= keep(b, reg, member));
    } else {
        assert((a + b)[0] == a[0]);
        assert((a + b).drop_first() =~= a.drop_first() + b);
        lemma_keep_concat(a.drop_first(), b, reg, member);
        if reg.contains(a[0].id) == member {
            assert(seq![a[0]] + (keep(a.drop_first(), reg, member) + keep(b, reg, member))
                =~= (seq![a[0]] + keep(a.drop_first(), reg, member)) + keep(b, reg, member));
        }
    }
}

proof fn lemma_keep_all(s: Seq<EntryModel>, reg: Set<Seq<char>>, member: bool)
    requires
        forall|k: int| 0 <= k < s.len() ==> reg.contains(#[trigger] s[k].id) == member,
    ensures
        keep(s, reg, member) == s,
        keep(s, reg, !member) == Seq::<EntryModel>::empty(),
    decreases s.len(),
{
    if s.len() > 0 {
        assert(forall|k: int|
            0 <= k < s.drop_first().len() ==> reg.contains(
                #[trigger] s.drop_first()[k].id,
            ) == member);
        lemma_keep_all(s.drop_first(), reg, member);
        assert(seq![s[0]] + s.drop_first() =~= s);
    }
}

proof fn lemma_sort_of_sorted(s: Seq<EntryModel>)
    requires
        sorted_names(s),
    ensures
        sort_entries(s) == s,
    decreases s.len(),
{
    if s.len() > 0 {
        let s1 = s.drop_first();
        assert(forall|i: int, j: int|
            0 <= i < j < s1.len() ==> lex_le(#[trigger] s1[i].name, #[trigger] s1[j].name));
        lemma_sort_of_sorted(s1);
        if s1.len() == 0 {
            assert(insort(s[0], s1) =~= seq![s[0]] + s1);
        } else {
            assert(lex_le(s[0].name, s1[0].name));
        }
        assert(seq![s[0]] + s1 =~= s);
    }
}

/// Partitioning commutes with a stable insertion into a sorted run.
proof fn lemma_insort_keep_commute(
    x: EntryModel,
    u: Seq<EntryModel>,
    reg: Set<Seq<char>>,
    member: bool,
)
    requires
        sorted_names(u),
    ensures
        keep(insort(x, u), reg, member) == (if reg.contains(x.id) == member {
            insort(x, keep(u, reg, member))
        } else {
            keep(u, reg, member)
        }),
    decreases u.len(),
{
    if u.len() == 0 {
        assert(insort(x, u) =~= seq![x] + u);
        assert((seq![x] + u)[0] == x);
        assert((seq![x] + u).drop_first() =~= u);
        if reg.contains(x.id) == member {
            assert(keep(insort(x, u), reg, member) =~= seq![x] + keep(u, reg, member));
            assert(insort(x, keep(u, reg, member)) =~= seq![x] + keep(u, reg, member));
        }
    } else if lex_le(x.name, u[0].name) {
        assert(insort(x, u) == seq![x] + u);
        assert((seq![x] + u)[0] == x);
        assert((seq![x] + u).drop_first() =~= u);
        if reg.contains(x.id) == member {
            assert(keep(insort(x, u), reg, member) =~= seq![x] + keep(u, reg, member));
            // x's name bounds every name of u, so also every name the
            // partition keeps
            assert(forall|k: int| 0 <= k < u.len() ==> lex_le(x.name, #[trigger] u[k].name)) by {
                assert forall|k: int| 0 <= k < u.len() implies lex_le(
                    x.name,
                    #[trigger] u[k].name,
                ) by {
                    if k > 0 {
                        lemma_lex_le_trans(x.name, u[0].name, u[k].name);
                    }
                }
            }
            lemma_keep_lb(u, reg, member, x.name);
            let ku = keep(u, reg, member);
            if ku.len() == 0 {
                assert(insort(x, ku) =~= seq![x] + ku);
            } else {
                assert(lex_le(x.name, ku[0].name));
            }
        }
    } else {
        lemma_lex_le_total(x.name, u[0].name);
        let u1 = u.drop_first();
        assert(forall|i: int, j: int|
            0 <= i < j < u1.len() ==> lex_le(#[trigger] u1[i].name, #[trigger] u1[j].name));
        lemma_insort_keep_commute(x, u1, reg, member);
        let r = seq![u[0]] + insort(x, u1);
        assert(insort(x, u) == r);
        assert(r[0] == u[0]);
        assert(r.drop_first() =~= insort(x, u1));
        if reg.contains(u[0].id) == member {
            assert(keep(u, reg, member) == seq![u[0]] + keep(u1, reg, member));
            assert(keep(r, reg, member) == seq![u[0]] + keep(insort(x, u1), reg, member));
            if reg.contains(x.id) == member {
                let ku = keep(u, reg, member);
                assert(ku[0] == u[0]);
                assert(ku.drop_first() =~= keep(u1, reg, member));
                assert(!lex_le(x.name, ku[0].name));
                assert(insort(x, ku) == seq![ku[0]] + insort(x, ku.drop_first()));
            }
        } else {
            assert(keep(u, reg, member) == keep(u1, reg, member));
            assert(keep(r, reg, member) == keep(insort(x, u1), reg, member));
        }
    }
}

/// Partitioning commutes with the stable sort.
proof fn lemma_sort_keep_commute(s: Seq<EntryModel>, reg: Set<Seq<char>>, member: bool)
    ensures
        keep(sort_entries(s), reg, member) == sort_entries(keep(s, reg, member)),
    decreases s.len(),
{
    if s.len() > 0 {
        let s1 = s.drop_first();
        lemma_sort_keep_commute(s1, reg, member);
        lemma_sort_entries_sorted(s1);
        lemma_insort_keep_commute(s[0], sort_entries(s1), reg, member);
        if reg.contains(s[0].id) == member {
            assert(keep(s, reg, member) == seq![s[0]] + keep(s1, reg, member));
            let ks = keep(s, reg, member);
            assert(ks[0] == s[0]);
            assert(ks.drop_first() =~= keep(s1, reg, member));
            assert(sort_entries(ks) == insort(s[0], sort_entries(keep(s1, reg, member))));
        } else {
            assert(keep(s, reg, member) == keep(s1, reg, member));
        }
    }
}

/// Idempotence of the flush: a run already of the flushed shape — the
/// unregistered entries first, the registered second, each part sorted by
/// name — is a fixed point: flushing it again emits its lines unchanged.
pub proof fn lemma_flush_fixed_point(f: Seq<EntryModel>, t: Seq<EntryModel>, reg: Set<Seq<char>>)
    requires
        sorted_names(f),
        sorted_names(t),
        forall|k: int| 0 <= k < f.len() ==> !reg.contains(#[trigger] f[k].id),
        forall|k: int| 0 <= k < t.len() ==> reg.contains(#[trigger] t[k].id),
    ensures
        flush_model(f + t, reg) == raws(f + t),
{
    lemma_sort_keep_commute(f + t, reg, false);
    lemma_sort_keep_commute(f + t, reg, true);
    lemma_keep_concat(f, t, reg, false);
    lemma_keep_concat(f, t, reg, true);
    lemma_keep_all(f, reg, false);
    lemma_keep_all(t, reg, true);
    assert(keep(f + t, reg, false) =~= f);
    assert(keep(f + t, reg, true) =~= t);
    lemma_sort_of_sorted(f);
    lemma_sort_of_sorted(t);
    assert(flush_model(f + t, reg) == raws(f) + raws(t));
    assert(raws(f) + raws(t) =~= raws(f + t));
}

/// Idempotence of one group's reordering: flushing the run of entries a
/// flush produced emits exactly the lines of the first flush. With the
/// stable sort and the deterministic partition, one flush reaches the
/// fixed point.
pub proof fn lemma_flush_idempotent(acc: Seq<EntryModel>, reg: Set<Seq<char>>)
    ensures
        flush_model(
            keep(sort_entries(acc), reg, false) + keep(sort_entries(acc), reg, true),
            reg,
        ) == flush_model(acc, reg),
{
    let f = keep(sort_entries(acc), reg, false);
    let t = keep(sort_entries(acc), reg, true);
    lemma_flush_partition(acc, reg);
    lemma_flush_fixed_point(f, t, reg);
    assert(raws(f + t) =~= raws(f) + raws(t));
}

/// A pre-group marker without a preceding block header never changes the
/// mode (and so never opens group capture), provided the line is not a
/// file-section delimiter, which takes priority.
pub proof fn lemma_pre_group_guard(mode: ReadMode, line: Seq<char>, prev: Seq<char>)
    requires
        is_pre_group_spec(line),
        !has_block_name_spec(prev),
        !is_start_files_spec(line),
        !is_end_files_spec(line),
    ensures
        next_mode(mode, line, prev) == mode,
{
}

} // verus!
