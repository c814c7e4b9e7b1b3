//! The structural graph: which memory regions a file holds, which segments a
//! region holds, which sections a segment holds, and the way back.

use vstd::prelude::*;
use crate::index::{MemIdx, ObjIdx, ObjSectIdx, OutFileIdx, Position, SectIdx, SegIdx, positions};
use crate::error::LinkError;
use crate::object::Object;
use crate::script::{LinkScript, LinkScriptSegment};

verus! {

/// `list` holds, in ascending order, exactly the positions of `keys` at which
/// `target` stands.
pub open spec fn lists_exactly(list: Seq<int>, keys: Seq<int>, target: int) -> bool {
    &&& forall|i: int| 0 <= i < list.len() ==> 0 <= #[trigger] list[i] < keys.len() && keys[list[i]] == target
    &&& forall|i: int, j: int| 0 <= i < j < list.len() ==> list[i] < list[j]
    &&& forall|k: int| 0 <= k < keys.len() && #[trigger] keys[k] == target ==> list.contains(k)
}

/// Every list of `lists` holds the positions of `keys` at which its own
/// position stands.
pub open spec fn groups_keys<T: Position>(lists: Seq<Vec<T>>, keys: Seq<int>) -> bool {
    forall|t: int| 0 <= t < lists.len() ==> lists_exactly(positions((#[trigger] lists[t])@), keys, t)
}

proof fn lemma_lists_exactly_skip(list: Seq<int>, keys: Seq<int>, key: int, target: int)
    requires
        lists_exactly(list, keys, target),
        key != target,
    ensures
        lists_exactly(list, keys.push(key), target),
{
    let keys2 = keys.push(key);
    assert forall|k: int| 0 <= k < keys2.len() && #[trigger] keys2[k] == target implies list.contains(k) by {
        assert(keys[k] == target);
    }
}

proof fn lemma_lists_exactly_push(list: Seq<int>, keys: Seq<int>, target: int)
    requires
        lists_exactly(list, keys, target),
    ensures
        lists_exactly(list.push(keys.len() as int), keys.push(target), target),
{
    let keys2 = keys.push(target);
    let list2 = list.push(keys.len() as int);
    assert forall|k: int| 0 <= k < keys2.len() && #[trigger] keys2[k] == target implies list2.contains(k) by {
        if k < keys.len() {
            assert(keys[k] == target);
            let i = choose|i: int| 0 <= i < list.len() && list[i] == k;
            assert(list2[i] == k);
        } else {
            assert(list2[list.len() as int] == k);
        }
    }
}

/// Groups the positions of `keys` by the key that stands there: list `t` of
/// the result holds the positions at which `t` stands, in ascending order.
pub fn group_by_key<K: Position, T: Position>(keys: &Vec<K>, n: usize) -> (lists: Vec<Vec<T>>)
    requires
        forall|k: int| 0 <= k < keys@.len() ==> 0 <= (#[trigger] keys@[k]).pos() < n,
    ensures
        lists@.len() == n,
        groups_keys(lists@, positions(keys@)),
{
    let mut lists: Vec<Vec<T>> = Vec::new();
    let mut t: usize = 0;
    while t < n
        invariant
            t <= n,
            lists@.len() == t,
            forall|u: int| 0 <= u < t ==> (#[trigger] lists@[u])@.len() == 0,
        decreases n - t,
    {
        lists.push(Vec::new());
        t += 1;
    }
    let mut k: usize = 0;
    assert(positions(keys@).take(0) =~= Seq::<int>::empty());
    while k < keys.len()
        invariant
            k <= keys.len(),
            lists@.len() == n,
            forall|j: int| 0 <= j < keys@.len() ==> 0 <= (#[trigger] keys@[j]).pos() < n,
            groups_keys(lists@, positions(keys@).take(k as int)),
        decreases keys.len() - k,
    {
        let key = keys[k].index();
        let ghost before = lists@;
        let ghost seen = positions(keys@).take(k as int);
        lists[key].push(T::at(k));
        proof {
            assert(positions(keys@).take(k + 1) =~= seen.push(key as int));
            assert forall|t: int| 0 <= t < lists@.len() implies lists_exactly(
                positions((#[trigger] lists@[t])@),
                seen.push(key as int),
                t,
            ) by {
                assert(lists_exactly(positions(before[t]@), seen, t));
                if t == key {
                    lemma_lists_exactly_push(positions(before[t]@), seen, t);
                    assert(positions(lists@[t]@) =~= positions(before[t]@).push(k as int));
                } else {
                    lemma_lists_exactly_skip(positions(before[t]@), seen, key as int, t);
                    assert(lists@[t] == before[t]);
                }
            }
        }
        k += 1;
    }
    assert(positions(keys@).take(keys@.len() as int) =~= positions(keys@));
    lists
}

/// What becomes of a section of an object.
pub enum SectionClass {
    /// It is placed in the segment at this position.
    Placed(int),
    /// It is empty and names a conventional segment that the script lacks.
    Dropped,
    /// It holds bytes and names a conventional segment that the script lacks.
    Unmapped,
    /// It names a segment that is neither declared nor conventional.
    Unknown,
}

/// The position of the last segment of that name, if there is one.
pub open spec fn find_segment(segs: Seq<LinkScriptSegment>, name: Seq<char>) -> Option<int>
    decreases segs.len(),
{
    if segs.len() == 0 {
        None
    } else if segs.last().name@ == name {
        Some(segs.len() - 1)
    } else {
        find_segment(segs.drop_last(), name)
    }
}

/// The names of the segments that an assembler emits without being asked.
pub open spec fn is_predefined_name(name: Seq<char>) -> bool {
    ||| name == "BSS"@
    ||| name == "CODE"@
    ||| name == "DATA"@
    ||| name == "NULL"@
    ||| name == "RODATA"@
    ||| name == "ZEROPAGE"@
}

/// What becomes of section `k` of `obj` under `script`.
pub open spec fn classify(script: &LinkScript, obj: &Object, k: int) -> SectionClass {
    let name = obj.segment_name_of(k);
    match find_segment(script.segs(), name) {
        Some(g) => SectionClass::Placed(g),
        None => if !is_predefined_name(name) {
            SectionClass::Unknown
        } else if obj.sections()[k].len == 0 {
            SectionClass::Dropped
        } else {
            SectionClass::Unmapped
        },
    }
}

/// Section `k` of object `o` exists, and both numbers are positions.
pub open spec fn valid_ref(objs: Seq<Object>, o: int, k: int) -> bool {
    0 <= o < objs.len() && 0 <= k < objs[o].sections().len() && o <= usize::MAX && k <= usize::MAX
}

/// Section `k1` of object `o1` is met before section `k2` of object `o2`.
pub open spec fn precedes(o1: int, k1: int, o2: int, k2: int) -> bool {
    o1 < o2 || (o1 == o2 && k1 < k2)
}

/// The error that section `k` of object `o` gives, if it gives one.
pub open spec fn section_error(script: &LinkScript, objs: Seq<Object>, o: int, k: int) -> Option<
    LinkError,
> {
    match classify(script, &objs[o], k) {
        SectionClass::Unmapped => Some(
            LinkError::UnmappedSegment { obj: ObjIdx(o as usize), sect: ObjSectIdx(k as usize) },
        ),
        SectionClass::Unknown => Some(
            LinkError::UnknownSegment { obj: ObjIdx(o as usize), sect: ObjSectIdx(k as usize) },
        ),
        _ => None,
    }
}

/// No section that is met before section `k` of object `o` gives an error.
pub open spec fn no_section_error_before(script: &LinkScript, objs: Seq<Object>, o: int, k: int) -> bool {
    forall|o1: int, k1: int|
        valid_ref(objs, o1, k1) && precedes(o1, k1, o, k) ==> #[trigger] section_error(
            script,
            objs,
            o1,
            k1,
        ) is None
}

/// `e` is the error of the first section, in the order of objects and of
/// their tables, that gives one.
pub open spec fn first_section_error(script: &LinkScript, objs: Seq<Object>, e: LinkError) -> bool {
    exists|o: int, k: int|
        valid_ref(objs, o, k) && #[trigger] section_error(script, objs, o, k) == Some(e)
            && no_section_error_before(script, objs, o, k)
}

fn find_segment_by_name(script: &LinkScript, name: &String) -> (r: Option<SegIdx>)
    ensures
        match r {
            Some(g) => find_segment(script.segs(), name@) == Some(g.0 as int),
            None => find_segment(script.segs(), name@) is None,
        },
        r matches Some(g) ==> g.0 < script.segs().len(),
{
    let mut found: Option<SegIdx> = None;
    let mut g: usize = 0;
    while g < script.segment_count()
        invariant
            g <= script.segs().len(),
            match found {
                Some(f) => find_segment(script.segs().take(g as int), name@) == Some(f.0 as int) && f.0 < g,
                None => find_segment(script.segs().take(g as int), name@) is None,
            },
        decreases script.segs().len() - g,
    {
        assert(script.segs().take(g + 1).drop_last() =~= script.segs().take(g as int));
        if script.segment(SegIdx::new(g)).name == *name {
            found = Some(SegIdx::new(g));
        }
        g += 1;
    }
    assert(script.segs().take(g as int) =~= script.segs());
    found
}

fn is_predefined(name: &String) -> (r: bool)
    ensures
        r == is_predefined_name(name@),
{
    *name == "BSS".to_owned() || *name == "CODE".to_owned() || *name == "DATA".to_owned() || *name
        == "NULL".to_owned() || *name == "RODATA".to_owned() || *name == "ZEROPAGE".to_owned()
}

/// Placed section `s` comes from an existing section of an object, and that
/// section is placed in the segment recorded for `s`.
pub open spec fn placed_at(
    script: &LinkScript,
    objs: Seq<Object>,
    sect_to_seg: Seq<SegIdx>,
    sect_to_obj_sect: Seq<(ObjIdx, ObjSectIdx)>,
    s: int,
) -> bool {
    let o = sect_to_obj_sect[s].0.0 as int;
    let k = sect_to_obj_sect[s].1.0 as int;
    &&& valid_ref(objs, o, k)
    &&& classify(script, &objs[o], k) == SectionClass::Placed(sect_to_seg[s].0 as int)
    &&& sect_to_seg[s].0 < script.segs().len()
}

/// What is recorded for section `k` of object `o` fits what becomes of it: the
/// placed section that comes from it, or nothing where it is dropped.
pub open spec fn row_entry_ok(
    script: &LinkScript,
    objs: Seq<Object>,
    sect_to_obj_sect: Seq<(ObjIdx, ObjSectIdx)>,
    o: int,
    k: int,
    entry: Option<SectIdx>,
) -> bool {
    match entry {
        Some(s) => s.0 < sect_to_obj_sect.len() && sect_to_obj_sect[s.0 as int] == (
            ObjIdx(o as usize),
            ObjSectIdx(k as usize),
        ),
        None => classify(script, &objs[o], k) == SectionClass::Dropped,
    }
}

/// The tables of the placed sections are those of `script` and `objs`: the
/// placed sections are the sections that name a declared segment, numbered in
/// the order of the objects and of their section tables.
pub open spec fn sections_placed(
    script: &LinkScript,
    objs: Seq<Object>,
    sect_to_seg: Seq<SegIdx>,
    sect_to_obj_sect: Seq<(ObjIdx, ObjSectIdx)>,
    obj_sect_to_sect: Seq<Vec<Option<SectIdx>>>,
) -> bool {
    &&& sect_to_seg.len() == sect_to_obj_sect.len()
    &&& forall|s: int|
        0 <= s < sect_to_seg.len() ==> #[trigger] placed_at(script, objs, sect_to_seg, sect_to_obj_sect, s)
    &&& forall|s1: int, s2: int|
        0 <= s1 < s2 < sect_to_obj_sect.len() ==> precedes(
            (#[trigger] sect_to_obj_sect[s1]).0.0 as int,
            sect_to_obj_sect[s1].1.0 as int,
            (#[trigger] sect_to_obj_sect[s2]).0.0 as int,
            sect_to_obj_sect[s2].1.0 as int,
        )
    &&& obj_sect_to_sect.len() == objs.len()
    &&& forall|o: int|
        0 <= o < objs.len() ==> (#[trigger] obj_sect_to_sect[o])@.len() == objs[o].sections().len()
    &&& forall|o: int, k: int|
        valid_ref(objs, o, k) ==> row_entry_ok(
            script,
            objs,
            sect_to_obj_sect,
            o,
            k,
            #[trigger] obj_sect_to_sect[o]@[k],
        )
}

/// The objects that the placed sections come from.
pub open spec fn origin_objs(sect_to_obj_sect: Seq<(ObjIdx, ObjSectIdx)>) -> Seq<int> {
    Seq::new(sect_to_obj_sect.len(), |s: int| sect_to_obj_sect[s].0.0 as int)
}

/// The relations between the elements of a link, with their names.
#[derive(Debug)]
pub struct LinkGraph {
    file_to_mems: Vec<Vec<MemIdx>>,
    mem_to_segs: Vec<Vec<SegIdx>>,
    seg_to_sects: Vec<Vec<SectIdx>>,
    obj_to_sects: Vec<Vec<SectIdx>>,
    mem_to_file: Vec<OutFileIdx>,
    seg_to_mem: Vec<MemIdx>,
    sect_to_seg: Vec<SegIdx>,
    obj_sect_to_sect: Vec<Vec<Option<SectIdx>>>,
    sect_to_obj_sect: Vec<(ObjIdx, ObjSectIdx)>,
    file_names: Vec<String>,
    mem_names: Vec<String>,
    seg_names: Vec<String>,
}

/// `copies` holds the texts of `names`, one for one.
pub open spec fn same_texts(copies: Seq<String>, names: Seq<Seq<char>>) -> bool {
    copies.len() == names.len() && forall|i: int| 0 <= i < copies.len() ==> (#[trigger] copies[i])@ == names[i]
}

impl LinkGraph {
    pub closed spec fn spec_file_to_mems(&self) -> Seq<Vec<MemIdx>> {
        self.file_to_mems@
    }

    pub closed spec fn spec_mem_to_segs(&self) -> Seq<Vec<SegIdx>> {
        self.mem_to_segs@
    }

    pub closed spec fn spec_seg_to_sects(&self) -> Seq<Vec<SectIdx>> {
        self.seg_to_sects@
    }

    pub closed spec fn spec_obj_to_sects(&self) -> Seq<Vec<SectIdx>> {
        self.obj_to_sects@
    }

    pub closed spec fn spec_mem_to_file(&self) -> Seq<OutFileIdx> {
        self.mem_to_file@
    }

    pub closed spec fn spec_seg_to_mem(&self) -> Seq<MemIdx> {
        self.seg_to_mem@
    }

    pub closed spec fn spec_sect_to_seg(&self) -> Seq<SegIdx> {
        self.sect_to_seg@
    }

    pub closed spec fn spec_obj_sect_to_sect(&self) -> Seq<Vec<Option<SectIdx>>> {
        self.obj_sect_to_sect@
    }

    pub closed spec fn spec_sect_to_obj_sect(&self) -> Seq<(ObjIdx, ObjSectIdx)> {
        self.sect_to_obj_sect@
    }

    pub closed spec fn spec_file_names(&self) -> Seq<String> {
        self.file_names@
    }

    pub closed spec fn spec_mem_names(&self) -> Seq<String> {
        self.mem_names@
    }

    pub closed spec fn spec_seg_names(&self) -> Seq<String> {
        self.seg_names@
    }

    /// Every element of the graph has a number that is a position.
    pub open spec fn counts_are_positions(&self) -> bool {
        &&& self.spec_file_to_mems().len() <= usize::MAX
        &&& self.spec_mem_to_file().len() <= usize::MAX
        &&& self.spec_seg_to_mem().len() <= usize::MAX
        &&& self.spec_sect_to_seg().len() <= usize::MAX
    }

    /// The graph is the one of `script` and `objs`.
    ///
    /// Files, regions and segments stand as the script declares them, each
    /// region under its file and each segment under its region, in ascending
    /// order. The placed sections are numbered in the order of the objects and
    /// of their tables, each under its segment and under its object.
    pub open spec fn wf_for(&self, script: &LinkScript, objs: Seq<Object>) -> bool {
        &&& self.counts_are_positions()
        &&& self.spec_file_to_mems().len() == script.outfiles().len()
        &&& self.spec_mem_to_file().len() == script.mems().len()
        &&& forall|m: int|
            0 <= m < script.mems().len() ==> #[trigger] self.spec_mem_to_file()[m] == script.mems()[m].outfile_i
        &&& groups_keys(self.spec_file_to_mems(), positions(self.spec_mem_to_file()))
        &&& self.spec_mem_to_segs().len() == script.mems().len()
        &&& self.spec_seg_to_mem().len() == script.segs().len()
        &&& forall|g: int|
            0 <= g < script.segs().len() ==> #[trigger] self.spec_seg_to_mem()[g] == script.segs()[g].mem_i
        &&& groups_keys(self.spec_mem_to_segs(), positions(self.spec_seg_to_mem()))
        &&& sections_placed(
            script,
            objs,
            self.spec_sect_to_seg(),
            self.spec_sect_to_obj_sect(),
            self.spec_obj_sect_to_sect(),
        )
        &&& self.spec_seg_to_sects().len() == script.segs().len()
        &&& groups_keys(self.spec_seg_to_sects(), positions(self.spec_sect_to_seg()))
        &&& self.spec_obj_to_sects().len() == objs.len()
        &&& groups_keys(self.spec_obj_to_sects(), origin_objs(self.spec_sect_to_obj_sect()))
        &&& same_texts(self.spec_file_names(), Seq::new(script.outfiles().len(), |i: int| script.outfiles()[i]@))
        &&& same_texts(self.spec_mem_names(), Seq::new(script.mems().len(), |i: int| script.mems()[i].name@))
        &&& same_texts(self.spec_seg_names(), Seq::new(script.segs().len(), |i: int| script.segs()[i].name@))
    }

    /// The tables of the graph fit together and fit `objs`: every list holds
    /// the elements of its owner, and every placed section comes from a
    /// section of an object.
    pub open spec fn linked(&self, objs: Seq<Object>) -> bool {
        &&& groups_keys(self.spec_file_to_mems(), positions(self.spec_mem_to_file()))
        &&& self.spec_mem_to_segs().len() == self.spec_mem_to_file().len()
        &&& groups_keys(self.spec_mem_to_segs(), positions(self.spec_seg_to_mem()))
        &&& self.spec_seg_to_sects().len() == self.spec_seg_to_mem().len()
        &&& groups_keys(self.spec_seg_to_sects(), positions(self.spec_sect_to_seg()))
        &&& self.spec_sect_to_obj_sect().len() == self.spec_sect_to_seg().len()
        &&& forall|s: int|
            0 <= s < self.spec_sect_to_obj_sect().len() ==> valid_ref(
                objs,
                (#[trigger] self.spec_sect_to_obj_sect()[s]).0.0 as int,
                self.spec_sect_to_obj_sect()[s].1.0 as int,
            )
    }

    /// The graph of a script and of objects fits together.
    pub proof fn lemma_wf_linked(&self, script: &LinkScript, objs: Seq<Object>)
        requires
            self.wf_for(script, objs),
        ensures
            self.linked(objs),
    {
        assert forall|s: int| 0 <= s < self.spec_sect_to_obj_sect().len() implies valid_ref(
            objs,
            (#[trigger] self.spec_sect_to_obj_sect()[s]).0.0 as int,
            self.spec_sect_to_obj_sect()[s].1.0 as int,
        ) by {
            assert(placed_at(script, objs, self.spec_sect_to_seg(), self.spec_sect_to_obj_sect(), s));
        }
    }

    /// The file of every memory region, and the regions of every file.
    pub fn build_file_mem(script: &LinkScript) -> (r: (Vec<Vec<MemIdx>>, Vec<OutFileIdx>))
        requires
            script.wf(),
        ensures
            r.0@.len() == script.outfiles().len(),
            r.1@.len() == script.mems().len(),
            forall|m: int| 0 <= m < r.1@.len() ==> #[trigger] r.1@[m] == script.mems()[m].outfile_i,
            groups_keys(r.0@, positions(r.1@)),
    {
        let mut mem_to_file: Vec<OutFileIdx> = Vec::new();
        let mut m: usize = 0;
        while m < script.memory_count()
            invariant
                script.wf(),
                m <= script.mems().len(),
                mem_to_file@.len() == m,
                forall|k: int| 0 <= k < m ==> #[trigger] mem_to_file@[k] == script.mems()[k].outfile_i,
            decreases script.mems().len() - m,
        {
            mem_to_file.push(script.memory(MemIdx::new(m)).outfile_idx());
            m += 1;
        }
        assert forall|k: int| 0 <= k < mem_to_file@.len() implies 0 <= (#[trigger] mem_to_file@[k]).pos()
            < script.outfiles().len() by {
            assert(script.mems()[k].wf());
        }
        let file_to_mems = group_by_key(&mem_to_file, script.outfile_count());
        (file_to_mems, mem_to_file)
    }

    /// The memory region of every segment, and the segments of every region.
    pub fn build_mem_seg(script: &LinkScript) -> (r: (Vec<Vec<SegIdx>>, Vec<MemIdx>))
        requires
            script.wf(),
        ensures
            r.0@.len() == script.mems().len(),
            r.1@.len() == script.segs().len(),
            forall|g: int| 0 <= g < r.1@.len() ==> #[trigger] r.1@[g] == script.segs()[g].mem_i,
            groups_keys(r.0@, positions(r.1@)),
    {
        let mut seg_to_mem: Vec<MemIdx> = Vec::new();
        let mut g: usize = 0;
        while g < script.segment_count()
            invariant
                script.wf(),
                g <= script.segs().len(),
                seg_to_mem@.len() == g,
                forall|k: int| 0 <= k < g ==> #[trigger] seg_to_mem@[k] == script.segs()[k].mem_i,
            decreases script.segs().len() - g,
        {
            seg_to_mem.push(script.segment(SegIdx::new(g)).memory_idx());
            g += 1;
        }
        assert forall|k: int| 0 <= k < seg_to_mem@.len() implies 0 <= (#[trigger] seg_to_mem@[k]).pos()
            < script.mems().len() by {
            assert(script.segs()[k].mem_i.0 < script.mems().len());
        }
        let mem_to_segs = group_by_key(&seg_to_mem, script.memory_count());
        (mem_to_segs, seg_to_mem)
    }

    /// Sorts every section of every object into its segment. Sections are taken
    /// object by object, each table from its start. One that names a declared
    /// segment is placed and gets the next number; an empty one that names a
    /// conventional segment is dropped; any other ends the link.
    ///
    /// The result holds the sections of every segment, the sections of every
    /// object, and for every placed section its segment and its origin, with the
    /// way back from every section of an object to its number.
    pub fn build_seg_obj_sect(script: &LinkScript, objs: &[Object]) -> (r: Result<
        (
            Vec<Vec<SectIdx>>,
            Vec<Vec<SectIdx>>,
            Vec<SegIdx>,
            Vec<Vec<Option<SectIdx>>>,
            Vec<(ObjIdx, ObjSectIdx)>,
        ),
        LinkError,
    >)
        requires
            forall|o: int| 0 <= o < objs@.len() ==> (#[trigger] objs@[o]).wf(),
        ensures
            match r {
                Ok(t) => {
                    &&& sections_placed(script, objs@, t.2@, t.4@, t.3@)
                    &&& t.0@.len() == script.segs().len()
                    &&& groups_keys(t.0@, positions(t.2@))
                    &&& t.1@.len() == objs@.len()
                    &&& groups_keys(t.1@, origin_objs(t.4@))
                },
                Err(e) => first_section_error(script, objs@, e),
            },
    {
        let mut sect_to_seg: Vec<SegIdx> = Vec::new();
        let mut sect_to_obj: Vec<ObjIdx> = Vec::new();
        let mut obj_sect_to_sect: Vec<Vec<Option<SectIdx>>> = Vec::new();
        let mut sect_to_obj_sect: Vec<(ObjIdx, ObjSectIdx)> = Vec::new();
        let mut o: usize = 0;
        while o < objs.len()
            invariant
                forall|o1: int| 0 <= o1 < objs@.len() ==> (#[trigger] objs@[o1]).wf(),
                o <= objs@.len(),
                sect_to_seg@.len() == sect_to_obj_sect@.len(),
                sect_to_obj@.len() == sect_to_obj_sect@.len(),
                forall|s: int|
                    0 <= s < sect_to_seg@.len() ==> #[trigger] placed_at(
                        script,
                        objs@,
                        sect_to_seg@,
                        sect_to_obj_sect@,
                        s,
                    ),
                forall|s: int| 0 <= s < sect_to_obj@.len() ==> #[trigger] sect_to_obj@[s] == sect_to_obj_sect@[s].0,
                forall|s: int| 0 <= s < sect_to_obj_sect@.len() ==> (#[trigger] sect_to_obj_sect@[s]).0.0 < o,
                forall|s1: int, s2: int|
                    0 <= s1 < s2 < sect_to_obj_sect@.len() ==> precedes(
                        (#[trigger] sect_to_obj_sect@[s1]).0.0 as int,
                        sect_to_obj_sect@[s1].1.0 as int,
                        (#[trigger] sect_to_obj_sect@[s2]).0.0 as int,
                        sect_to_obj_sect@[s2].1.0 as int,
                    ),
                obj_sect_to_sect@.len() == o,
                forall|o1: int|
                    0 <= o1 < o ==> (#[trigger] obj_sect_to_sect@[o1])@.len() == objs@[o1].sections().len(),
                forall|o1: int, k1: int|
                    valid_ref(objs@, o1, k1) && o1 < o ==> row_entry_ok(
                        script,
                        objs@,
                        sect_to_obj_sect@,
                        o1,
                        k1,
                        #[trigger] obj_sect_to_sect@[o1]@[k1],
                    ),
                no_section_error_before(script, objs@, o as int, 0),
            decreases objs@.len() - o,
        {
            let obj = &objs[o];
            let mut row: Vec<Option<SectIdx>> = Vec::new();
            let mut k: usize = 0;
            while k < obj.section_count()
                invariant
                    forall|o1: int| 0 <= o1 < objs@.len() ==> (#[trigger] objs@[o1]).wf(),
                    o < objs@.len(),
                    *obj == objs@[o as int],
                    k <= obj.sections().len(),
                    sect_to_seg@.len() == sect_to_obj_sect@.len(),
                    sect_to_obj@.len() == sect_to_obj_sect@.len(),
                    forall|s: int|
                        0 <= s < sect_to_seg@.len() ==> #[trigger] placed_at(
                            script,
                            objs@,
                            sect_to_seg@,
                            sect_to_obj_sect@,
                            s,
                        ),
                    forall|s: int|
                        0 <= s < sect_to_obj@.len() ==> #[trigger] sect_to_obj@[s] == sect_to_obj_sect@[s].0,
                    forall|s: int|
                        0 <= s < sect_to_obj_sect@.len() ==> precedes(
                            (#[trigger] sect_to_obj_sect@[s]).0.0 as int,
                            sect_to_obj_sect@[s].1.0 as int,
                            o as int,
                            k as int,
                        ),
                    forall|s1: int, s2: int|
                        0 <= s1 < s2 < sect_to_obj_sect@.len() ==> precedes(
                            (#[trigger] sect_to_obj_sect@[s1]).0.0 as int,
                            sect_to_obj_sect@[s1].1.0 as int,
                            (#[trigger] sect_to_obj_sect@[s2]).0.0 as int,
                            sect_to_obj_sect@[s2].1.0 as int,
                        ),
                    obj_sect_to_sect@.len() == o,
                    forall|o1: int|
                        0 <= o1 < o ==> (#[trigger] obj_sect_to_sect@[o1])@.len() == objs@[o1].sections().len(),
                    forall|o1: int, k1: int|
                        valid_ref(objs@, o1, k1) && o1 < o ==> row_entry_ok(
                            script,
                            objs@,
                            sect_to_obj_sect@,
                            o1,
                            k1,
                            #[trigger] obj_sect_to_sect@[o1]@[k1],
                        ),
                    row@.len() == k,
                    forall|k1: int|
                        0 <= k1 < k ==> row_entry_ok(
                            script,
                            objs@,
                            sect_to_obj_sect@,
                            o as int,
                            k1,
                            #[trigger] row@[k1],
                        ),
                    no_section_error_before(script, objs@, o as int, k as int),
                decreases obj.sections().len() - k,
            {
                let name = obj.query_segment_name(ObjSectIdx::new(k)).to_owned();
                let found = find_segment_by_name(script, &name);
                let ghost old_origins = sect_to_obj_sect@;
                let ghost old_segs = sect_to_seg@;
                assert(valid_ref(objs@, o as int, k as int));
                match found {
                    Some(seg_i) => {
                        let sect_i = SectIdx::new(sect_to_seg.len());
                        sect_to_seg.push(seg_i);
                        sect_to_obj.push(ObjIdx::new(o));
                        sect_to_obj_sect.push((ObjIdx::new(o), ObjSectIdx::new(k)));
                        row.push(Some(sect_i));
                        proof {
                            assert forall|s: int| 0 <= s < sect_to_seg@.len() implies #[trigger] placed_at(
                                script,
                                objs@,
                                sect_to_seg@,
                                sect_to_obj_sect@,
                                s,
                            ) by {
                                if s < old_segs.len() {
                                    assert(placed_at(script, objs@, old_segs, old_origins, s));
                                }
                            }
                            assert forall|o1: int, k1: int| valid_ref(objs@, o1, k1) && o1 < o implies row_entry_ok(
                                script,
                                objs@,
                                sect_to_obj_sect@,
                                o1,
                                k1,
                                #[trigger] obj_sect_to_sect@[o1]@[k1],
                            ) by {
                                assert(row_entry_ok(script, objs@, old_origins, o1, k1, obj_sect_to_sect@[o1]@[k1]));
                            }
                            assert forall|k1: int| 0 <= k1 < k + 1 implies row_entry_ok(
                                script,
                                objs@,
                                sect_to_obj_sect@,
                                o as int,
                                k1,
                                #[trigger] row@[k1],
                            ) by {
                                if k1 < k {
                                    assert(row_entry_ok(script, objs@, old_origins, o as int, k1, row@[k1]));
                                }
                            }
                        }
                    },
                    None => {
                        if !is_predefined(&name) {
                            return Err(
                                LinkError::UnknownSegment { obj: ObjIdx::new(o), sect: ObjSectIdx::new(k) },
                            );
                        }
                        if obj.section(ObjSectIdx::new(k)).len != 0 {
                            return Err(
                                LinkError::UnmappedSegment { obj: ObjIdx::new(o), sect: ObjSectIdx::new(k) },
                            );
                        }
                        row.push(None);
                    },
                }
                proof {
                    assert(section_error(script, objs@, o as int, k as int) is None);
                    assert forall|o1: int, k1: int|
                        valid_ref(objs@, o1, k1) && precedes(o1, k1, o as int, k + 1) implies #[trigger] section_error(
                        script,
                        objs@,
                        o1,
                        k1,
                    ) is None by {
                        if !(o1 == o && k1 == k) {
                            assert(precedes(o1, k1, o as int, k as int));
                        }
                    }
                }
                k += 1;
            }
            obj_sect_to_sect.push(row);
            proof {
                assert forall|o1: int, k1: int|
                    valid_ref(objs@, o1, k1) && precedes(o1, k1, o + 1, 0) implies #[trigger] section_error(
                    script,
                    objs@,
                    o1,
                    k1,
                ) is None by {
                    assert(precedes(o1, k1, o as int, k as int));
                }
            }
            o += 1;
        }
        proof {
            assert(positions(sect_to_obj@) =~= origin_objs(sect_to_obj_sect@));
            assert forall|s: int| 0 <= s < sect_to_seg@.len() implies 0 <= (#[trigger] sect_to_seg@[s]).pos()
                < script.segs().len() by {
                assert(placed_at(script, objs@, sect_to_seg@, sect_to_obj_sect@, s));
            }
            assert forall|s: int| 0 <= s < sect_to_obj@.len() implies 0 <= (#[trigger] sect_to_obj@[s]).pos()
                < objs@.len() by {
                assert(placed_at(script, objs@, sect_to_seg@, sect_to_obj_sect@, s));
            }
        }
        let seg_to_sects = group_by_key(&sect_to_seg, script.segment_count());
        let obj_to_sects = group_by_key(&sect_to_obj, objs.len());
        Ok((seg_to_sects, obj_to_sects, sect_to_seg, obj_sect_to_sect, sect_to_obj_sect))
    }

    pub fn file_count(&self) -> (r: usize)
        ensures
            r == self.spec_file_names().len(),
    {
        self.file_names.len()
    }

    pub fn mem_count(&self) -> (r: usize)
        ensures
            r == self.spec_mem_names().len(),
    {
        self.mem_names.len()
    }

    pub fn seg_count(&self) -> (r: usize)
        ensures
            r == self.spec_seg_names().len(),
    {
        self.seg_names.len()
    }

    pub fn obj_count(&self) -> (r: usize)
        ensures
            r == self.spec_obj_to_sects().len(),
    {
        self.obj_to_sects.len()
    }

    pub fn sect_count(&self) -> (r: usize)
        ensures
            r == self.spec_sect_to_seg().len(),
    {
        self.sect_to_seg.len()
    }

    pub fn file_name(&self, file_i: OutFileIdx) -> (r: &str)
        requires
            file_i.0 < self.spec_file_names().len(),
        ensures
            r@ == self.spec_file_names()[file_i.0 as int]@,
    {
        self.file_names[file_i.0].as_str()
    }

    pub fn mem_name(&self, mem_i: MemIdx) -> (r: &str)
        requires
            mem_i.0 < self.spec_mem_names().len(),
        ensures
            r@ == self.spec_mem_names()[mem_i.0 as int]@,
    {
        self.mem_names[mem_i.0].as_str()
    }

    pub fn seg_name(&self, seg_i: SegIdx) -> (r: &str)
        requires
            seg_i.0 < self.spec_seg_names().len(),
        ensures
            r@ == self.spec_seg_names()[seg_i.0 as int]@,
    {
        self.seg_names[seg_i.0].as_str()
    }

    /// The positions of the output files, in ascending order.
    pub fn files(&self) -> (r: Vec<OutFileIdx>)
        ensures
            r@.len() == self.spec_file_names().len(),
            forall|i: int| 0 <= i < r@.len() ==> (#[trigger] r@[i]).0 == i,
    {
        let mut r: Vec<OutFileIdx> = Vec::new();
        let mut i: usize = 0;
        while i < self.file_names.len()
            invariant
                i <= self.file_names@.len(),
                r@.len() == i,
                forall|k: int| 0 <= k < i ==> (#[trigger] r@[k]).0 == k,
            decreases self.file_names@.len() - i,
        {
            r.push(OutFileIdx::new(i));
            i += 1;
        }
        r
    }

    /// The memory regions of a file, in ascending order.
    pub fn file_to_mems(&self, file_i: OutFileIdx) -> (r: &[MemIdx])
        requires
            file_i.0 < self.spec_file_to_mems().len(),
        ensures
            r@ == self.spec_file_to_mems()[file_i.0 as int]@,
    {
        self.file_to_mems[file_i.0].as_slice()
    }

    /// The segments of a memory region, in ascending order.
    pub fn mem_to_segs(&self, mem_i: MemIdx) -> (r: &[SegIdx])
        requires
            mem_i.0 < self.spec_mem_to_segs().len(),
        ensures
            r@ == self.spec_mem_to_segs()[mem_i.0 as int]@,
    {
        self.mem_to_segs[mem_i.0].as_slice()
    }

    /// The sections of a segment, in ascending order.
    pub fn seg_to_sects(&self, seg_i: SegIdx) -> (r: &[SectIdx])
        requires
            seg_i.0 < self.spec_seg_to_sects().len(),
        ensures
            r@ == self.spec_seg_to_sects()[seg_i.0 as int]@,
    {
        self.seg_to_sects[seg_i.0].as_slice()
    }

    /// The placed sections of an object, in ascending order.
    pub fn obj_to_sects(&self, obj_i: ObjIdx) -> (r: &[SectIdx])
        requires
            obj_i.0 < self.spec_obj_to_sects().len(),
        ensures
            r@ == self.spec_obj_to_sects()[obj_i.0 as int]@,
    {
        self.obj_to_sects[obj_i.0].as_slice()
    }

    pub fn mem_to_file(&self, mem_i: MemIdx) -> (r: OutFileIdx)
        requires
            mem_i.0 < self.spec_mem_to_file().len(),
        ensures
            r == self.spec_mem_to_file()[mem_i.0 as int],
    {
        self.mem_to_file[mem_i.0]
    }

    pub fn seg_to_mem(&self, seg_i: SegIdx) -> (r: MemIdx)
        requires
            seg_i.0 < self.spec_seg_to_mem().len(),
        ensures
            r == self.spec_seg_to_mem()[seg_i.0 as int],
    {
        self.seg_to_mem[seg_i.0]
    }

    pub fn sect_to_seg(&self, sect_i: SectIdx) -> (r: SegIdx)
        requires
            sect_i.0 < self.spec_sect_to_seg().len(),
        ensures
            r == self.spec_sect_to_seg()[sect_i.0 as int],
    {
        self.sect_to_seg[sect_i.0]
    }

    /// The number of a section of an object, or `None` where the section was
    /// dropped or does not exist.
    pub fn obj_sect_to_sect(&self, obj_i: ObjIdx, obj_sect_i: ObjSectIdx) -> (r: Option<SectIdx>)
        ensures
            r == if obj_i.0 < self.spec_obj_sect_to_sect().len() && obj_sect_i.0
                < self.spec_obj_sect_to_sect()[obj_i.0 as int]@.len() {
                self.spec_obj_sect_to_sect()[obj_i.0 as int]@[obj_sect_i.0 as int]
            } else {
                None
            },
    {
        if obj_i.0 < self.obj_sect_to_sect.len() && obj_sect_i.0 < self.obj_sect_to_sect[obj_i.0].len() {
            self.obj_sect_to_sect[obj_i.0][obj_sect_i.0]
        } else {
            None
        }
    }

    pub fn sect_to_obj_sect(&self, sect_i: SectIdx) -> (r: (ObjIdx, ObjSectIdx))
        requires
            sect_i.0 < self.spec_sect_to_obj_sect().len(),
        ensures
            r == self.spec_sect_to_obj_sect()[sect_i.0 as int],
    {
        self.sect_to_obj_sect[sect_i.0]
    }

    /// Builds the graph of a script and the objects to link. The link ends
    /// with the error of the first section that names no usable segment.
    pub fn new(script: &LinkScript, objs: &[Object]) -> (r: Result<Self, LinkError>)
        requires
            script.wf(),
            forall|o: int| 0 <= o < objs@.len() ==> (#[trigger] objs@[o]).wf(),
        ensures
            match r {
                Ok(g) => g.wf_for(script, objs@),
                Err(e) => first_section_error(script, objs@, e),
            },
    {
        let (file_to_mems, mem_to_file) = Self::build_file_mem(script);
        let (mem_to_segs, seg_to_mem) = Self::build_mem_seg(script);
        let (seg_to_sects, obj_to_sects, sect_to_seg, obj_sect_to_sect, sect_to_obj_sect) =
            match Self::build_seg_obj_sect(script, objs) {
            Ok(t) => t,
            Err(e) => {
                return Err(e);
            },
        };
        let mut file_names: Vec<String> = Vec::new();
        let mut i: usize = 0;
        while i < script.outfile_count()
            invariant
                i <= script.outfiles().len(),
                file_names@.len() == i,
                forall|k: int| 0 <= k < i ==> (#[trigger] file_names@[k])@ == script.outfiles()[k]@,
            decreases script.outfiles().len() - i,
        {
            file_names.push(script.outfile(OutFileIdx::new(i)).to_owned());
            i += 1;
        }
        let mut mem_names: Vec<String> = Vec::new();
        let mut i: usize = 0;
        while i < script.memory_count()
            invariant
                i <= script.mems().len(),
                mem_names@.len() == i,
                forall|k: int| 0 <= k < i ==> (#[trigger] mem_names@[k])@ == script.mems()[k].name@,
            decreases script.mems().len() - i,
        {
            mem_names.push(script.memory(MemIdx::new(i)).name().to_owned());
            i += 1;
        }
        let mut seg_names: Vec<String> = Vec::new();
        let mut i: usize = 0;
        while i < script.segment_count()
            invariant
                i <= script.segs().len(),
                seg_names@.len() == i,
                forall|k: int| 0 <= k < i ==> (#[trigger] seg_names@[k])@ == script.segs()[k].name@,
            decreases script.segs().len() - i,
        {
            seg_names.push(script.segment(SegIdx::new(i)).name().to_owned());
            i += 1;
        }
        proof {
            assert(file_to_mems.len() == file_to_mems@.len());
            assert(mem_to_file.len() == mem_to_file@.len());
            assert(seg_to_mem.len() == seg_to_mem@.len());
            assert(sect_to_seg.len() == sect_to_seg@.len());
        }
        Ok(
            Self {
                file_to_mems,
                mem_to_segs,
                seg_to_sects,
                obj_to_sects,
                mem_to_file,
                seg_to_mem,
                sect_to_seg,
                obj_sect_to_sect,
                sect_to_obj_sect,
                file_names,
                mem_names,
                seg_names,
            },
        )
    }
}

} // verus!
