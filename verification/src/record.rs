use vstd::prelude::*;

verus! {

/// What one discovered network is, mathematically: its name, its hardware
/// address, and its signal strength.
pub ghost struct RecordV {
    pub name: Seq<char>,
    pub mac: Seq<char>,
    pub signal: int,
}

impl RecordV {
    /// The data-model invariant: both text fields are non-empty. Lines that
    /// would break it are discarded by the parsers.
    pub open spec fn wf(self) -> bool {
        self.name.len() > 0 && self.mac.len() > 0
    }
}

/// One discovered network: the SSID, the access point's hardware (MAC)
/// address, and a percentage-like signal strength used only for display.
pub struct NetworkRecord {
    pub name: String,
    pub hardware_address: String,
    pub signal_strength: i32,
}

impl View for NetworkRecord {
    type V = RecordV;

    open spec fn view(&self) -> RecordV {
        RecordV {
            name: self.name@,
            mac: self.hardware_address@,
            signal: self.signal_strength as int,
        }
    }
}

pub open spec fn views(rs: Seq<NetworkRecord>) -> Seq<RecordV> {
    Seq::new(rs.len(), |i: int| rs[i]@)
}

/// No two records carry the same name: the result set is keyed by name.
pub open spec fn unique_names(vs: Seq<RecordV>) -> bool {
    forall|i: int, j: int|
        0 <= i < j < vs.len() ==> #[trigger] vs[i].name != #[trigger] vs[j].name
}

pub open spec fn all_wf(vs: Seq<RecordV>) -> bool {
    forall|i: int| 0 <= i < vs.len() ==> (#[trigger] vs[i]).wf()
}

/// The mapping from name to record that a record sequence denotes; a later
/// entry with the same name overwrites an earlier one.
pub open spec fn as_map(vs: Seq<RecordV>) -> Map<Seq<char>, RecordV>
    decreases vs.len(),
{
    if vs.len() == 0 {
        Map::empty()
    } else {
        as_map(vs.drop_last()).insert(vs.last().name, vs.last())
    }
}

/// A record sequence with unique names denotes its mapping exactly: each
/// record stands at its own name, every bound name comes from a record, and
/// the mapping holds as many entries as there are records.
pub proof fn lemma_as_map_correspond(vs: Seq<RecordV>)
    requires
        unique_names(vs),
    ensures
        forall|i: int|
            0 <= i < vs.len() ==> as_map(vs).contains_key((#[trigger] vs[i]).name) && as_map(vs)[
                vs[i].name] == vs[i],
        forall|k: Seq<char>|
            as_map(vs).contains_key(k) ==> exists|i: int|
                0 <= i < vs.len() && (#[trigger] vs[i]).name == k,
        as_map(vs).dom().finite(),
        as_map(vs).dom().len() == vs.len(),
    decreases vs.len(),
{
    broadcast use vstd::set::group_set_axioms;
    broadcast use vstd::map::group_map_axioms;

    if vs.len() > 0 {
        let pre = vs.drop_last();
        let last = vs.last();
        assert(forall|i: int, j: int|
            0 <= i < j < pre.len() ==> (#[trigger] pre[i]).name != (#[trigger] pre[j]).name);
        lemma_as_map_correspond(pre);
        let m0 = as_map(pre);
        assert(!m0.contains_key(last.name)) by {
            if m0.contains_key(last.name) {
                let i = choose|i: int| 0 <= i < pre.len() && (#[trigger] pre[i]).name == last.name;
                assert(vs[i].name == vs[vs.len() - 1].name);
            }
        }
        assert(as_map(vs).dom() =~= m0.dom().insert(last.name));
        assert forall|k: Seq<char>| as_map(vs).contains_key(k) implies exists|i: int|
            0 <= i < vs.len() && (#[trigger] vs[i]).name == k by {
            if k == last.name {
                assert(vs[vs.len() - 1].name == k);
            } else {
                let i = choose|i: int| 0 <= i < pre.len() && (#[trigger] pre[i]).name == k;
                assert(vs[i].name == k);
            }
        }
        assert forall|i: int|
            0 <= i < vs.len() implies as_map(vs).contains_key((#[trigger] vs[i]).name) && as_map(
            vs,
        )[vs[i].name] == vs[i] by {
            if i < vs.len() - 1 {
                assert(pre[i] == vs[i]);
                assert(vs[i].name != last.name);
            }
        }
    }
}

proof fn lemma_as_map_update(vs: Seq<RecordV>, i: int, r: RecordV)
    requires
        0 <= i < vs.len(),
        unique_names(vs),
        vs[i].name == r.name,
    ensures
        as_map(vs.update(i, r)) == as_map(vs).insert(r.name, r),
    decreases vs.len(),
{
    let vs2 = vs.update(i, r);
    if i == vs.len() - 1 {
        assert(vs2.drop_last() =~= vs.drop_last());
        assert(vs2.last() == r);
        assert(as_map(vs2) =~= as_map(vs).insert(r.name, r));
    } else {
        assert(vs2.drop_last() =~= vs.drop_last().update(i, r));
        assert(vs2.last() == vs.last());
        assert(vs.drop_last()[i] == vs[i]);
        lemma_as_map_update(vs.drop_last(), i, r);
        assert(vs[i].name != vs.last().name);
        assert(as_map(vs2) =~= as_map(vs).insert(r.name, r));
    }
}

/// Inserts a record keyed by its name: an existing record with the same name
/// is overwritten in place, otherwise the record is appended. This is the
/// deduplication device: the set stays a mapping from name to record.
#[verifier::loop_isolation(false)]
pub fn upsert(rs: &mut Vec<NetworkRecord>, rec: NetworkRecord)
    requires
        unique_names(views(old(rs)@)),
    ensures
        unique_names(views(final(rs)@)),
        as_map(views(final(rs)@)) == as_map(views(old(rs)@)).insert(rec@.name, rec@),
        all_wf(views(old(rs)@)) && rec@.wf() ==> all_wf(views(final(rs)@)),
{
    let n = rs.len();
    let mut i: usize = 0;
    while i < n
        invariant
            0 <= i <= n,
            n == rs@.len(),
            rs@ == old(rs)@,
            forall|k: int| 0 <= k < i ==> views(rs@)[k].name != rec@.name,
        decreases n - i,
    {
        if rs[i].name == rec.name {
            proof {
                assert(views(rs@)[i as int].name == rec@.name);
                lemma_as_map_update(views(rs@), i as int, rec@);
                assert(views(rs@).update(i as int, rec@) =~= views(rs@.update(i as int, rec)));
            }
            rs.set(i, rec);
            proof {
                assert(unique_names(views(rs@))) by {
                    assert(forall|a: int|
                        0 <= a < views(rs@).len() ==> (#[trigger] views(rs@)[a]).name == views(
                            old(rs)@,
                        )[a].name);
                }
            }
            return ;
        }
        i = i + 1;
    }
    let ghost old_vs = views(rs@);
    rs.push(rec);
    proof {
        assert(views(rs@).drop_last() =~= old_vs);
        assert(views(rs@).last() == rec@);
        assert(as_map(views(rs@)) == as_map(old_vs).insert(rec@.name, rec@));
        assert forall|a: int, b: int|
            0 <= a < b < views(rs@).len() implies (#[trigger] views(rs@)[a]).name != (
        #[trigger] views(rs@)[b]).name by {
            assert(views(rs@)[a] == old_vs[a]);
            if b < views(rs@).len() - 1 {
                assert(views(rs@)[b] == old_vs[b]);
            } else {
                assert(views(rs@)[b] == rec@);
                assert(old_vs[a].name != rec@.name);
            }
        }
        if all_wf(old_vs) && rec@.wf() {
            assert forall|a: int| 0 <= a < views(rs@).len() implies (
            #[trigger] views(rs@)[a]).wf() by {
                if a < views(rs@).len() - 1 {
                    assert(views(rs@)[a] == old_vs[a]);
                    assert(old_vs[a].wf());
                } else {
                    assert(views(rs@)[a] == rec@);
                }
            }
        }
    }
}

} // verus!
