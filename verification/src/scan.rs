//! The scanning machine: the read-mode state machine, the captured-entry
//! accumulator with its sort-and-partition flush, and the one-pass
//! orchestrator over the input lines. The whole pass is specified by a
//! spec-level model (`scan_model`) that the executable code is proved to
//! follow exactly.

use vstd::prelude::*;
use crate::file_string::{
    is_pre_group_spec, is_start_parent_spec, is_end_parent_spec, is_start_files_spec,
    is_end_files_spec, has_block_name_spec, children_name_spec, file_id_spec, is_pre_group,
    is_start_parent, is_end_parent, is_start_files, is_end_files, has_block_name, children_name,
    file_id,
};
use crate::order::{lex_le, str_le};

verus! {

/// The parsing context the scan is in. Exactly one is active at any point.
#[derive(Clone, Copy, Debug, PartialEq, Eq, Structural)]
pub enum ReadMode {
    Files,
    Normal,
    PreGroup,
    Group,
}

/// One captured child-entry line: its display name, its leading identifier
/// and the verbatim original line.
pub struct Entry {
    pub name: String,
    pub id: String,
    pub raw: String,
}

/// The mathematical image of a captured entry.
#[verifier::ext_equal]
pub struct EntryModel {
    pub name: Seq<char>,
    pub id: Seq<char>,
    pub raw: Seq<char>,
}

impl View for Entry {
    type V = EntryModel;

    open spec fn view(&self) -> EntryModel {
        EntryModel { name: self.name@, id: self.id@, raw: self.raw@ }
    }
}

/// The pure transition function of the read-mode state machine, rules in
/// priority order; the first matching rule wins.
pub open spec fn next_mode(mode: ReadMode, line: Seq<char>, prev: Seq<char>) -> ReadMode {
    if is_start_files_spec(line) {
        ReadMode::Files
    } else if is_end_files_spec(line) {
        ReadMode::Normal
    } else if is_pre_group_spec(line) && has_block_name_spec(prev) {
        ReadMode::PreGroup
    } else if is_pre_group_spec(line) {
        mode
    } else if mode == ReadMode::PreGroup && is_start_parent_spec(line) {
        ReadMode::Group
    } else if mode == ReadMode::Group && is_end_parent_spec(line) {
        ReadMode::Normal
    } else {
        mode
    }
}

/// Maps the current mode, the current line and the previous line to the
/// next mode.
pub fn reduce_read_mode(mode: &ReadMode, string: &str, prev_string: &str) -> (m: ReadMode)
    ensures
        m == next_mode(*mode, string@, prev_string@),
{
    if is_start_files(string) {
        ReadMode::Files
    } else if is_end_files(string) {
        ReadMode::Normal
    } else if is_pre_group(string) {
        if has_block_name(prev_string) {
            ReadMode::PreGroup
        } else {
            *mode
        }
    } else if *mode == ReadMode::PreGroup && is_start_parent(string) {
        ReadMode::Group
    } else if *mode == ReadMode::Group && is_end_parent(string) {
        ReadMode::Normal
    } else {
        *mode
    }
}

/// Resolves the manifest location: a directory path gets the fixed manifest
/// filename appended; any other path is used as-is. Whether the path names
/// a directory is decided by the caller.
pub fn make_path(path: &str, is_dir: bool) -> (p: String)
    ensures
        !is_dir ==> p@ == path@,
        is_dir && path@.len() == 0 ==> p@ == "project.pbxproj"@,
        is_dir && path@.len() > 0 && path@.last() == '/' ==> p@ == path@ + "project.pbxproj"@,
        is_dir && path@.len() > 0 && path@.last() != '/' ==> p@ == path@ + "/project.pbxproj"@,
{
    if !is_dir {
        return String::from_str(path);
    }
    let n = path.unicode_len();
    if n == 0 {
        return String::from_str("project.pbxproj");
    }
    if path.get_char(n - 1) == '/' {
        String::from_str(path).concat("project.pbxproj")
    } else {
        String::from_str(path).concat("/project.pbxproj")
    }
}

/// Inserts `x` into `s` before the first element whose name is at or after
/// `x`'s: the single step of a stable insertion sort by name.
pub open spec fn insort(x: EntryModel, s: Seq<EntryModel>) -> Seq<EntryModel>
    decreases s.len(),
{
    if s.len() == 0 {
        seq![x]
    } else if lex_le(x.name, s[0].name) {
        seq![x] + s
    } else {
        seq![s[0]] + insort(x, s.drop_first())
    }
}

/// Stable insertion sort of the captured entries by display name, ordinal
/// comparison; entries with equal names keep their relative order.
pub open spec fn sort_entries(s: Seq<EntryModel>) -> Seq<EntryModel>
    decreases s.len(),
{
    if s.len() == 0 {
        Seq::empty()
    } else {
        insort(s[0], sort_entries(s.drop_first()))
    }
}

/// `insort` splits `s` at the first position whose element's name is at or
/// after `x`'s name.
proof fn lemma_insort_at(x: EntryModel, s: Seq<EntryModel>, j: int)
    requires
        0 <= j <= s.len(),
        forall|k: int| 0 <= k < j ==> !lex_le(x.name, #[trigger] s[k].name),
        j < s.len() ==> lex_le(x.name, s[j].name),
    ensures
        insort(x, s) == s.subrange(0, j) + seq![x] + s.subrange(j, s.len() as int),
    decreases j,
{
    if j == 0 {
        if s.len() == 0 {
            assert(insort(x, s) =~= s.subrange(0, 0) + seq![x] + s.subrange(0, 0));
        } else {
            assert(insort(x, s) =~= s.subrange(0, 0) + seq![x] + s.subrange(0, s.len() as int));
        }
    } else {
        let s1 = s.drop_first();
        assert(forall|k: int| 0 <= k < j - 1 ==> !lex_le(x.name, #[trigger] s1[k].name));
        lemma_insort_at(x, s1, j - 1);
        assert(insort(x, s) == seq![s[0]] + insort(x, s1));
        assert(seq![s[0]] + (s1.subrange(0, j - 1) + seq![x] + s1.subrange(j - 1, s1.len() as int))
            =~= s.subrange(0, j) + seq![x] + s.subrange(j, s.len() as int));
    }
}

/// Inserts `x` into the vector at the position `insort` names.
fn insert_sorted(v: &mut Vec<Entry>, x: Entry)
    ensures
        entries_model(final(v)@) == insort(x@, entries_model(old(v)@)),
{
    let ghost m = entries_model(v@);
    let mut j: usize = 0;
    loop
        invariant
            m == entries_model(v@),
            j <= v@.len(),
            forall|k: int| 0 <= k < j ==> !lex_le(x@.name, #[trigger] m[k].name),
        ensures
            m == entries_model(v@),
            j <= m.len(),
            forall|k: int| 0 <= k < j ==> !lex_le(x@.name, #[trigger] m[k].name),
            j < m.len() ==> lex_le(x@.name, m[j as int].name),
        decreases v@.len() - j,
    {
        if j == v.len() {
            break;
        }
        if str_le(x.name.as_str(), v[j].name.as_str()) {
            assert(m[j as int] == v@[j as int]@);
            break;
        }
        assert(!lex_le(x@.name, m[j as int].name));
        j += 1;
    }
    proof {
        lemma_insort_at(x@, m, j as int);
    }
    v.insert(j, x);
    proof {
        assert(entries_model(v@) =~= m.subrange(0, j as int) + seq![x@] + m.subrange(
            j as int,
            m.len() as int,
        ));
    }
}

/// The mathematical image of a run of captured entries.
pub open spec fn entries_model(s: Seq<Entry>) -> Seq<EntryModel> {
    s.map_values(|e: Entry| e@)
}

/// The mathematical image of a run of lines.
pub open spec fn lines_model(s: Seq<String>) -> Seq<Seq<char>> {
    s.map_values(|x: String| x@)
}

/// The registry as a set: the identifiers held by the vector.
pub open spec fn reg_set(r: Seq<String>) -> Set<Seq<char>> {
    Set::new(|x: Seq<char>| exists|k: int| 0 <= k < r.len() && r[k]@ == x)
}

proof fn lemma_reg_set_push(r: Seq<String>, s: String)
    ensures
        reg_set(r.push(s)) == reg_set(r).insert(s@),
{
    let a = reg_set(r.push(s));
    let b = reg_set(r).insert(s@);
    assert forall|x: Seq<char>| a.contains(x) implies b.contains(x) by {
        let k = choose|k: int| 0 <= k < r.push(s).len() && r.push(s)[k]@ == x;
        if k < r.len() {
            assert(r[k]@ == x);
            assert(reg_set(r).contains(x));
        } else {
            assert(r.push(s)[k] == s);
        }
    }
    assert forall|x: Seq<char>| b.contains(x) implies a.contains(x) by {
        if x == s@ {
            assert(r.push(s)[r.len() as int]@ == x);
        } else {
            let k = choose|k: int| 0 <= k < r.len() && r[k]@ == x;
            assert(r.push(s)[k]@ == x);
        }
    }
    assert(a =~= b);
}

impl Entry {
    /// A field-for-field copy of the entry.
    pub fn duplicate(&self) -> (e: Entry)
        ensures
            e@ == self@,
    {
        Entry { name: self.name.clone(), id: self.id.clone(), raw: self.raw.clone() }
    }
}

/// The entries of `s` whose membership of the registry equals `member`, in
/// their order in `s`.
pub open spec fn keep(s: Seq<EntryModel>, reg: Set<Seq<char>>, member: bool) -> Seq<EntryModel>
    decreases s.len(),
{
    if s.len() == 0 {
        Seq::empty()
    } else if reg.contains(s[0].id) == member {
        seq![s[0]] + keep(s.drop_first(), reg, member)
    } else {
        keep(s.drop_first(), reg, member)
    }
}

/// The verbatim lines of a run of entries.
pub open spec fn raws(s: Seq<EntryModel>) -> Seq<Seq<char>> {
    s.map_values(|e: EntryModel| e.raw)
}

/// What a closing children list emits: the captured entries sorted by name,
/// those not in the registry first, those in the registry second, each run
/// keeping its sorted order.
pub open spec fn flush_model(acc: Seq<EntryModel>, reg: Set<Seq<char>>) -> Seq<Seq<char>> {
    let sorted = sort_entries(acc);
    raws(keep(sorted, reg, false)) + raws(keep(sorted, reg, true))
}

pub proof fn lemma_keep_push(s: Seq<EntryModel>, reg: Set<Seq<char>>, member: bool, e: EntryModel)
    ensures
        keep(s.push(e), reg, member) == keep(s, reg, member) + (if reg.contains(e.id) == member {
            seq![e]
        } else {
            Seq::<EntryModel>::empty()
        }),
    decreases s.len(),
{
    if s.len() == 0 {
        assert(s.push(e)[0] == e);
        assert(s.push(e).drop_first() =~= Seq::<EntryModel>::empty());
        assert(keep(Seq::<EntryModel>::empty(), reg, member) =~= Seq::<EntryModel>::empty());
        assert(s =~= Seq::<EntryModel>::empty());
        if reg.contains(e.id) == member {
            assert(keep(s.push(e), reg, member) =~= keep(s, reg, member) + seq![e]);
        } else {
            assert(keep(s.push(e), reg, member) =~= keep(s, reg, member));
        }
    } else {
        assert(s.push(e)[0] == s[0]);
        assert(s.push(e).drop_first() =~= s.drop_first().push(e));
        lemma_keep_push(s.drop_first(), reg, member, e);
        if reg.contains(e.id) == member {
            assert(keep(s.push(e), reg, member) =~= keep(s, reg, member) + seq![e]);
        } else {
            assert(keep(s.push(e), reg, member) =~= keep(s, reg, member));
        }
    }
}

fn contains_id(registry: &Vec<String>, id: &String) -> (b: bool)
    ensures
        b == reg_set(registry@).contains(id@),
{
    let mut k: usize = 0;
    while k < registry.len()
        invariant
            k <= registry@.len(),
            forall|t: int| 0 <= t < k ==> registry@[t]@ != id@,
        decreases registry@.len() - k,
    {
        if registry[k] == *id {
            assert(reg_set(registry@).contains(id@));
            return true;
        }
        k += 1;
    }
    false
}

/// Appends to `out` the verbatim lines of the entries of `sorted` whose
/// registry membership equals `member`, in order.
fn emit_run(sorted: &Vec<Entry>, registry: &Vec<String>, member: bool, out: &mut Vec<String>)
    ensures
        lines_model(final(out)@) == lines_model(old(out)@) + raws(
            keep(entries_model(sorted@), reg_set(registry@), member),
        ),
{
    let ghost base = lines_model(old(out)@);
    let ghost sm = entries_model(sorted@);
    let ghost reg = reg_set(registry@);
    proof {
        assert(sm.take(0) =~= Seq::<EntryModel>::empty());
        assert(lines_model(out@) =~= base + raws(keep(sm.take(0), reg, member)));
    }
    let mut i: usize = 0;
    while i < sorted.len()
        invariant
            i <= sorted@.len(),
            sm == entries_model(sorted@),
            reg == reg_set(registry@),
            lines_model(out@) == base + raws(keep(sm.take(i as int), reg, member)),
        decreases sorted@.len() - i,
    {
        let is_mem = contains_id(registry, &sorted[i].id);
        let ghost pre_out = lines_model(out@);
        if is_mem == member {
            out.push(sorted[i].raw.clone());
        }
        proof {
            assert(sm[i as int] == sorted@[i as int]@);
            assert(sm.take(i as int + 1) =~= sm.take(i as int).push(sm[i as int]));
            lemma_keep_push(sm.take(i as int), reg, member, sm[i as int]);
            if reg.contains(sm[i as int].id) == member {
                assert(raws(keep(sm.take(i as int + 1), reg, member)) =~= raws(
                    keep(sm.take(i as int), reg, member),
                ).push(sm[i as int].raw));
                assert(lines_model(out@) =~= pre_out.push(sm[i as int].raw));
                assert(lines_model(out@) =~= base + raws(keep(sm.take(i as int + 1), reg, member)));
            } else {
                assert(raws(keep(sm.take(i as int + 1), reg, member)) =~= raws(
                    keep(sm.take(i as int), reg, member),
                ));
            }
        }
        i += 1;
    }
    proof {
        assert(sm.take(sorted@.len() as int) =~= sm);
    }
}

/// Sorts and partitions the captured entries and appends the resulting
/// lines to `out`: the accumulator's flush.
fn flush_into(acc: &Vec<Entry>, registry: &Vec<String>, out: &mut Vec<String>)
    ensures
        lines_model(final(out)@) == lines_model(old(out)@) + flush_model(
            entries_model(acc@),
            reg_set(registry@),
        ),
{
    let ghost am = entries_model(acc@);
    let mut sorted: Vec<Entry> = Vec::new();
    let mut i: usize = acc.len();
    proof {
        assert(am.skip(am.len() as int) =~= Seq::<EntryModel>::empty());
    }
    while i > 0
        invariant
            i <= acc@.len(),
            am == entries_model(acc@),
            entries_model(sorted@) == sort_entries(am.skip(i as int)),
        decreases i,
    {
        i -= 1;
        let e = acc[i].duplicate();
        insert_sorted(&mut sorted, e);
        proof {
            assert(am.skip(i as int)[0] == am[i as int]);
            assert(am.skip(i as int).drop_first() =~= am.skip(i as int + 1));
            assert(am[i as int] == acc@[i as int]@);
            assert(sort_entries(am.skip(i as int)) == insort(
                am[i as int],
                sort_entries(am.skip(i as int + 1)),
            ));
        }
    }
    proof {
        assert(am.skip(0) =~= am);
    }
    let ghost base = lines_model(out@);
    emit_run(&sorted, registry, false, out);
    emit_run(&sorted, registry, true, out);
    proof {
        let sm = entries_model(sorted@);
        let reg = reg_set(registry@);
        assert(lines_model(out@) =~= base + (raws(keep(sm, reg, false)) + raws(
            keep(sm, reg, true),
        )));
    }
}

/// The whole state of the scan, as mathematics: the mode, the previous
/// line, the registry, the accumulator, the output so far; beside them the
/// lines passed through verbatim (`passed`) and one tag per output line
/// (`tags`), true exactly for the lines a flush emitted. The last two exist
/// only to state how output relates to input.
#[verifier::ext_equal]
pub struct ScanModel {
    pub mode: ReadMode,
    pub prev: Seq<char>,
    pub registry: Set<Seq<char>>,
    pub acc: Seq<EntryModel>,
    pub out: Seq<Seq<char>>,
    pub passed: Seq<Seq<char>>,
    pub tags: Seq<bool>,
}

/// The state before any line is read.
pub open spec fn init_model() -> ScanModel {
    ScanModel {
        mode: ReadMode::Normal,
        prev: Seq::empty(),
        registry: Set::empty(),
        acc: Seq::empty(),
        out: Seq::empty(),
        passed: Seq::empty(),
        tags: Seq::empty(),
    }
}

/// The entry a line yields when both extractors succeed.
pub open spec fn capture_entry(line: Seq<char>) -> Option<EntryModel> {
    match (children_name_spec(line), file_id_spec(line)) {
        (Some(name), Some(id)) => Some(EntryModel { name, id, raw: line }),
        _ => None,
    }
}

/// The side effects applied before the mode transition, keyed on the mode
/// before it: registering an identifier, clearing the accumulator when a
/// children list opens, flushing it when one closes.
pub open spec fn pre_effects(st: ScanModel, line: Seq<char>) -> ScanModel {
    if st.mode == ReadMode::Files {
        match file_id_spec(line) {
            Some(id) => ScanModel { registry: st.registry.insert(id), ..st },
            None => st,
        }
    } else if st.mode == ReadMode::PreGroup && is_start_parent_spec(line) {
        ScanModel { acc: Seq::empty(), ..st }
    } else if st.mode == ReadMode::Group && is_end_parent_spec(line) {
        let fl = flush_model(st.acc, st.registry);
        ScanModel {
            out: st.out + fl,
            tags: st.tags + Seq::new(fl.len(), |i: int| true),
            acc: Seq::empty(),
            ..st
        }
    } else {
        st
    }
}

/// Appending one line verbatim to the output.
pub open spec fn emit_line(st: ScanModel, line: Seq<char>) -> ScanModel {
    ScanModel {
        out: st.out.push(line),
        passed: st.passed.push(line),
        tags: st.tags.push(false),
        ..st
    }
}

/// One line of the scan: pre-transition side effects, then the mode
/// transition, then the capture keyed on the new mode.
pub open spec fn step_model(st: ScanModel, line: Seq<char>) -> ScanModel {
    let st1 = pre_effects(st, line);
    let m2 = next_mode(st.mode, line, st.prev);
    let st2 = ScanModel { mode: m2, prev: line, ..st1 };
    if m2 == ReadMode::Group {
        match capture_entry(line) {
            Some(e) => ScanModel { acc: st2.acc.push(e), ..st2 },
            None => emit_line(st2, line),
        }
    } else {
        emit_line(st2, line)
    }
}

/// The state after scanning all of `lines`, in order.
pub open spec fn scan_model(lines: Seq<Seq<char>>) -> ScanModel
    decreases lines.len(),
{
    if lines.len() == 0 {
        init_model()
    } else {
        step_model(scan_model(lines.drop_last()), lines.last())
    }
}

/// The output of the whole transform on `lines`.
pub open spec fn transform_spec(lines: Seq<Seq<char>>) -> Seq<Seq<char>> {
    scan_model(lines).out
}

pub proof fn lemma_scan_step(lines: Seq<Seq<char>>, i: int)
    requires
        0 <= i < lines.len(),
    ensures
        scan_model(lines.take(i + 1)) == step_model(scan_model(lines.take(i)), lines[i]),
{
    assert(lines.take(i + 1).drop_last() =~= lines.take(i));
    assert(lines.take(i + 1).last() == lines[i]);
}

/// One forward pass over the input lines: registers file references,
/// captures each group's children and re-emits them sorted and
/// partitioned, and passes every other line through verbatim.
pub fn transform(lines: &Vec<String>) -> (out: Vec<String>)
    ensures
        lines_model(out@) == transform_spec(lines_model(lines@)),
{
    let ghost dv = lines_model(lines@);
    let mut out: Vec<String> = Vec::new();
    let mut acc: Vec<Entry> = Vec::new();
    let mut registry: Vec<String> = Vec::new();
    let mut mode = ReadMode::Normal;
    let mut prev = String::new();
    proof {
        assert(dv.take(0) =~= Seq::<Seq<char>>::empty());
        assert(lines_model(Seq::<String>::empty()) =~= Seq::<Seq<char>>::empty());
        assert(entries_model(Seq::<Entry>::empty()) =~= Seq::<EntryModel>::empty());
        assert(reg_set(Seq::<String>::empty()) =~= Set::<Seq<char>>::empty());
    }
    let mut idx: usize = 0;
    while idx < lines.len()
        invariant
            idx <= lines@.len(),
            dv == lines_model(lines@),
            mode == scan_model(dv.take(idx as int)).mode,
            prev@ == scan_model(dv.take(idx as int)).prev,
            reg_set(registry@) == scan_model(dv.take(idx as int)).registry,
            entries_model(acc@) == scan_model(dv.take(idx as int)).acc,
            lines_model(out@) == scan_model(dv.take(idx as int)).out,
        decreases lines@.len() - idx,
    {
        let ghost st = scan_model(dv.take(idx as int));
        let line: &String = &lines[idx];
        let ghost lv = dv[idx as int];
        proof {
            assert(lv == lines@[idx as int]@);
        }
        // pre-transition side effects, keyed on the mode before transition
        if mode == ReadMode::Files {
            match file_id(line.as_str()) {
                Ok(idstr) => {
                    let ids = String::from_str(idstr);
                    proof {
                        lemma_reg_set_push(registry@, ids);
                    }
                    registry.push(ids);
                },
                Err(_) => {},
            }
        } else if mode == ReadMode::PreGroup {
            if is_start_parent(line.as_str()) {
                acc = Vec::new();
                proof {
                    assert(entries_model(Seq::<Entry>::empty()) =~= Seq::<EntryModel>::empty());
                }
            }
        } else if mode == ReadMode::Group {
            if is_end_parent(line.as_str()) {
                flush_into(&acc, &registry, &mut out);
                acc = Vec::new();
                proof {
                    assert(entries_model(Seq::<Entry>::empty()) =~= Seq::<EntryModel>::empty());
                }
            }
        }
        let ghost st1 = pre_effects(st, lv);
        proof {
            assert(reg_set(registry@) == st1.registry);
            assert(entries_model(acc@) == st1.acc);
            assert(lines_model(out@) == st1.out);
        }
        // the mode transition
        let m2 = reduce_read_mode(&mode, line.as_str(), prev.as_str());
        prev = line.clone();
        mode = m2;
        // post-transition capture, keyed on the new mode
        let mut captured = false;
        if mode == ReadMode::Group {
            match (children_name(line.as_str()), file_id(line.as_str())) {
                (Ok(name), Ok(idstr)) => {
                    let entry = Entry {
                        name: String::from_str(name),
                        id: String::from_str(idstr),
                        raw: line.clone(),
                    };
                    proof {
                        assert(entry@ =~= capture_entry(lv).unwrap());
                        assert(entries_model(acc@.push(entry)) =~= entries_model(acc@).push(
                            entry@,
                        ));
                    }
                    acc.push(entry);
                    captured = true;
                },
                _ => {},
            }
        }
        if !captured {
            proof {
                assert(lines_model(out@.push(lines@[idx as int])) =~= lines_model(out@).push(lv));
            }
            out.push(line.clone());
        }
        proof {
            lemma_scan_step(dv, idx as int);
        }
        idx += 1;
    }
    proof {
        assert(dv.take(lines@.len() as int) =~= dv);
    }
    out
}

} // verus!
