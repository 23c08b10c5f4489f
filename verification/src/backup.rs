//! Backing up: the entries read from the configuration directory, grouped into
//! one write operation per version of each component.

use vstd::prelude::*;
use crate::schema::{names_distinct, write_names_distinct, ConfigFile, Entry, EntryContent, Operation};
use crate::text::{chars_of, string_of};
use crate::apply::{apply_plan, entry_steps, write_step, StepView};

verus! {

broadcast use vstd::string::group_string_axioms;

/// One entry read from the configuration directory.
#[derive(Debug)]
pub struct BackupItem {
    pub component: String,
    pub version: u64,
    pub entry: String,
    pub content: String,
}

/// What a list of items backs up: for each version of each component, the
/// content of each entry, the last one read winning where an entry comes twice.
pub open spec fn backup_map(items: Seq<BackupItem>) -> Map<(Seq<char>, u64), Map<Seq<char>, Seq<char>>>
    decreases items.len(),
{
    if items.len() == 0 {
        Map::empty()
    } else {
        let m = backup_map(items.drop_last());
        let it = items.last();
        let key = (it.component@, it.version);
        let inner = if m.dom().contains(key) {
            m[key]
        } else {
            Map::empty()
        };
        m.insert(key, inner.insert(it.entry@, it.content@))
    }
}

/// The version of a component that an operation is about.
pub open spec fn group_key(e: Entry) -> (Seq<char>, u64) {
    (e.component@, e.version)
}

/// The `(entry, value)` pairs of a write operation; nothing for another.
pub open spec fn write_pairs(e: Entry) -> Seq<(String, String)> {
    match e.entries {
        EntryContent::WriteEntries(kvs) => kvs@,
        EntryContent::ReadDeleteEntries(_) => Seq::empty(),
    }
}

/// Whether `kvs` names each entry once and holds exactly the contents `m`.
pub open spec fn pairs_denote(kvs: Seq<(String, String)>, m: Map<Seq<char>, Seq<char>>) -> bool {
    &&& names_distinct(kvs)
    &&& forall|n: Seq<char>| #[trigger] m.dom().contains(n) <==> exists|j: int| 0 <= j < kvs.len() && (#[trigger] kvs[j]).0@ == n
    &&& forall|j: int| 0 <= j < kvs.len() ==> m[(#[trigger] kvs[j]).0@] == kvs[j].1@
}

/// Whether `ops` are write operations, one per version of each component, holding
/// exactly the contents `m`.
pub open spec fn operations_denote(
    ops: Seq<Entry>,
    m: Map<(Seq<char>, u64), Map<Seq<char>, Seq<char>>>,
) -> bool {
    &&& forall|a: int| 0 <= a < ops.len() ==> (#[trigger] ops[a]).operation == Operation::Write
        && ops[a].entries is WriteEntries
    &&& forall|a: int, b: int| 0 <= a < b < ops.len() ==> group_key(#[trigger] ops[a]) != group_key(#[trigger] ops[b])
    &&& forall|key: (Seq<char>, u64)| #[trigger] m.dom().contains(key) <==> exists|a: int| 0 <= a < ops.len() && group_key(#[trigger] ops[a]) == key
    &&& forall|a: int| 0 <= a < ops.len() ==> pairs_denote(write_pairs(#[trigger] ops[a]), m[group_key(ops[a])])
}

/// The URL of the schema that a backup file names.
pub open spec fn backup_schema() -> Seq<char> {
    "https://raw.githubusercontent.com/HeitorAugustoLN/cosmic-ctl/refs/heads/main/schema.json"@
}

#[verifier::loop_isolation(false)]
fn put_pair(kvs: &mut Vec<(String, String)>, name: &String, content: &String, Ghost(m): Ghost<Map<Seq<char>, Seq<char>>>)
    requires
        pairs_denote(old(kvs)@, m),
    ensures
        pairs_denote(final(kvs)@, m.insert(name@, content@)),
{
    let mut j: usize = 0;
    while j < kvs.len()
        invariant
            kvs@ == old(kvs)@,
            pairs_denote(kvs@, m),
            j <= kvs.len(),
            forall|k: int| 0 <= k < j ==> (#[trigger] kvs@[k]).0@ != name@,
        decreases kvs.len() - j,
    {
        if kvs[j].0 == *name {
            let ghost before = kvs@;
            kvs.set(j, (name.clone(), content.clone()));
            let ghost m2 = m.insert(name@, content@);
            assert forall|n: Seq<char>| #[trigger] m2.dom().contains(n) implies exists|q: int| 0 <= q < kvs@.len() && (#[trigger] kvs@[q]).0@ == n by {
                if n != name@ {
                    assert(m.dom().contains(n));
                    let q = choose|q: int| 0 <= q < before.len() && (#[trigger] before[q]).0@ == n;
                    assert(kvs@[q] == before[q]);
                } else {
                    assert(kvs@[j as int].0@ == n);
                }
            }
            assert forall|q: int| 0 <= q < kvs@.len() implies m2[(#[trigger] kvs@[q]).0@] == kvs@[q].1@ by {
                if q != j {
                    assert(kvs@[q] == before[q]);
                    assert(before[q].0@ != before[j as int].0@);
                }
            }
            assert forall|q: int, k: int| 0 <= q < k < kvs@.len() implies (#[trigger] kvs@[q]).0@ != (#[trigger] kvs@[k]).0@ by {
                assert(before[q].0@ != before[k].0@);
                if q == j as int {
                    assert(kvs@[k] == before[k]);
                } else if k == j as int {
                    assert(kvs@[q] == before[q]);
                } else {
                    assert(kvs@[q] == before[q]);
                    assert(kvs@[k] == before[k]);
                }
            }
            return;
        }
        j = j + 1;
    }
    let ghost before = kvs@;
    kvs.push((name.clone(), content.clone()));
    let ghost m2 = m.insert(name@, content@);
    proof {
        if m.dom().contains(name@) {
            let q = choose|q: int| 0 <= q < before.len() && (#[trigger] before[q]).0@ == name@;
            assert(before[q].0@ != name@);
        }
    }
    assert forall|n: Seq<char>| #[trigger] m2.dom().contains(n) implies exists|q: int| 0 <= q < kvs@.len() && (#[trigger] kvs@[q]).0@ == n by {
        if n != name@ {
            assert(m.dom().contains(n));
            let q = choose|q: int| 0 <= q < before.len() && (#[trigger] before[q]).0@ == n;
            assert(kvs@[q] == before[q]);
        } else {
            assert(kvs@[before.len() as int].0@ == n);
        }
    }
    assert forall|n: Seq<char>| (exists|q: int| 0 <= q < kvs@.len() && (#[trigger] kvs@[q]).0@ == n) implies #[trigger] m2.dom().contains(n) by {
        let q = choose|q: int| 0 <= q < kvs@.len() && (#[trigger] kvs@[q]).0@ == n;
        if q < before.len() {
            assert(kvs@[q] == before[q]);
            assert(m.dom().contains(n));
        }
    }
    assert forall|q: int| 0 <= q < kvs@.len() implies m2[(#[trigger] kvs@[q]).0@] == kvs@[q].1@ by {
        if q < before.len() {
            assert(kvs@[q] == before[q]);
        }
    }
    assert forall|q: int, k: int| 0 <= q < k < kvs@.len() implies (#[trigger] kvs@[q]).0@ != (#[trigger] kvs@[k]).0@ by {
        assert(kvs@[q] == before[q]);
        if k < before.len() {
            assert(kvs@[k] == before[k]);
        }
    }
}

/// The backup file of the entries `items`: the schema URL, and one write
/// operation per version of each component, holding the content of each of its
/// entries.
#[verifier::loop_isolation(false)]
pub fn backup_config_file(items: &Vec<BackupItem>) -> (r: ConfigFile)
    ensures
        r.schema@ == backup_schema(),
        operations_denote(r.operations@, backup_map(items@)),
        write_names_distinct(r.operations@),
{
    let mut ops: Vec<Entry> = Vec::new();
    let mut i: usize = 0;
    assert(items@.take(0) =~= Seq::<BackupItem>::empty());
    while i < items.len()
        invariant
            i <= items.len(),
            operations_denote(ops@, backup_map(items@.take(i as int))),
        decreases items.len() - i,
    {
        let ghost m = backup_map(items@.take(i as int));
        let it = &items[i];
        let ghost key = (it.component@, it.version);
        assert(items@.take(i + 1).drop_last() =~= items@.take(i as int));
        assert(items@.take(i + 1).last() == *it);
        let ghost inner = if m.dom().contains(key) {
            m[key]
        } else {
            Map::<Seq<char>, Seq<char>>::empty()
        };
        let ghost m2 = m.insert(key, inner.insert(it.entry@, it.content@));
        assert(backup_map(items@.take(i + 1)) == m2);
        let mut g: usize = 0;
        let mut found = false;
        while g < ops.len()
            invariant
                g <= ops.len(),
                !found ==> forall|b: int| 0 <= b < g ==> group_key(#[trigger] ops@[b]) != key,
                found ==> g < ops.len() && group_key(ops@[g as int]) == key,
            decreases ops.len() - g,
        {
            if ops[g].component == it.component && ops[g].version == it.version {
                found = true;
                break;
            }
            g = g + 1;
        }
        if found {
            let ghost before = ops@;
            let e = ops.remove(g);
            assert(e == before[g as int]);
            let Entry { component, version, operation, entries } = e;
            match entries {
                EntryContent::WriteEntries(kvs) => {
                    let mut kvs = kvs;
                    assert(m.dom().contains(key));
                    put_pair(&mut kvs, &it.entry, &it.content, Ghost(m[key]));
                    ops.insert(g, Entry { component, version, operation, entries: EntryContent::WriteEntries(kvs) });
                    assert(ops@ =~= before.update(g as int, ops@[g as int]));
                    assert forall|a: int| 0 <= a < ops@.len() implies pairs_denote(write_pairs(#[trigger] ops@[a]), m2[group_key(ops@[a])]) by {
                        if a != g {
                            assert(ops@[a] == before[a]);
                            assert(group_key(before[a]) != group_key(before[g as int]));
                        }
                    }
                    assert forall|k: (Seq<char>, u64)| #[trigger] m2.dom().contains(k) <==> exists|a: int| 0 <= a < ops@.len() && group_key(#[trigger] ops@[a]) == k by {
                        if m2.dom().contains(k) {
                            let a = choose|a: int| 0 <= a < before.len() && group_key(#[trigger] before[a]) == k;
                            assert(group_key(ops@[a]) == group_key(before[a]));
                        }
                        if exists|a: int| 0 <= a < ops@.len() && group_key(#[trigger] ops@[a]) == k {
                            let a = choose|a: int| 0 <= a < ops@.len() && group_key(#[trigger] ops@[a]) == k;
                            assert(group_key(ops@[a]) == group_key(before[a]));
                        }
                    }
                    assert forall|a: int, b: int| 0 <= a < b < ops@.len() implies group_key(#[trigger] ops@[a]) != group_key(#[trigger] ops@[b]) by {
                        assert(group_key(ops@[a]) == group_key(before[a]));
                        assert(group_key(ops@[b]) == group_key(before[b]));
                    }
                },
                EntryContent::ReadDeleteEntries(keys) => {
                    assert(false);
                    ops.insert(g, Entry { component, version, operation, entries: EntryContent::ReadDeleteEntries(keys) });
                },
            }
        } else {
            let ghost before = ops@;
            assert(!m.dom().contains(key));
            let mut kvs: Vec<(String, String)> = Vec::new();
            kvs.push((it.entry.clone(), it.content.clone()));
            let e = Entry {
                component: it.component.clone(),
                version: it.version,
                operation: Operation::Write,
                entries: EntryContent::WriteEntries(kvs),
            };
            ops.push(e);
            assert(pairs_denote(kvs@, Map::<Seq<char>, Seq<char>>::empty().insert(it.entry@, it.content@))) by {
                let mm = Map::<Seq<char>, Seq<char>>::empty().insert(it.entry@, it.content@);
                assert forall|n: Seq<char>| #[trigger] mm.dom().contains(n) <==> exists|j: int| 0 <= j < kvs@.len() && (#[trigger] kvs@[j]).0@ == n by {
                    if mm.dom().contains(n) {
                        assert(kvs@[0].0@ == n);
                    }
                }
            }
            assert forall|a: int| 0 <= a < ops@.len() implies pairs_denote(write_pairs(#[trigger] ops@[a]), m2[group_key(ops@[a])]) by {
                if a < before.len() {
                    assert(ops@[a] == before[a]);
                }
            }
            assert forall|k: (Seq<char>, u64)| #[trigger] m2.dom().contains(k) <==> exists|a: int| 0 <= a < ops@.len() && group_key(#[trigger] ops@[a]) == k by {
                if m2.dom().contains(k) {
                    if k == key {
                        assert(group_key(ops@[before.len() as int]) == k);
                    } else {
                        let a = choose|a: int| 0 <= a < before.len() && group_key(#[trigger] before[a]) == k;
                        assert(ops@[a] == before[a]);
                    }
                }
                if exists|a: int| 0 <= a < ops@.len() && group_key(#[trigger] ops@[a]) == k {
                    let a = choose|a: int| 0 <= a < ops@.len() && group_key(#[trigger] ops@[a]) == k;
                    if a < before.len() {
                        assert(ops@[a] == before[a]);
                    }
                }
            }
            assert forall|a: int, b: int| 0 <= a < b < ops@.len() implies group_key(#[trigger] ops@[a]) != group_key(#[trigger] ops@[b]) by {
                assert(ops@[a] == before[a]);
                if b < before.len() {
                    assert(ops@[b] == before[b]);
                }
            }
        }
        i = i + 1;
    }
    assert(items@.take(items.len() as int) == items@);
    assert forall|a: int| 0 <= a < ops@.len() implies match (#[trigger] ops@[a]).entries {
        EntryContent::WriteEntries(kvs) => names_distinct(kvs@),
        EntryContent::ReadDeleteEntries(_) => true,
    } by {
        assert(pairs_denote(write_pairs(ops@[a]), backup_map(items@)[group_key(ops@[a])]));
    }
    let schema = string_of(&chars_of("https://raw.githubusercontent.com/HeitorAugustoLN/cosmic-ctl/refs/heads/main/schema.json"));
    ConfigFile { schema, operations: ops }
}

/// The step that writes `content` to entry `name` of version `version` of
/// `component`.
pub open spec fn written(component: Seq<char>, version: u64, name: Seq<char>, content: Seq<char>) -> StepView {
    StepView { operation: Operation::Write, component, version, key: name, value: Some(content) }
}

/// Whether `s` writes one of the `(entry, value)` pairs of one of the write
/// operations `ops`.
pub open spec fn writes_a_pair_of(ops: Seq<Entry>, s: StepView) -> bool {
    exists|a: int, j: int|
        0 <= a < ops.len() && 0 <= j < write_pairs(ops[a]).len() && s == #[trigger] write_step(
            ops[a].component@,
            ops[a].version,
            #[trigger] write_pairs(ops[a])[j],
        )
}

proof fn lemma_plan_of_writes(ops: Seq<Entry>)
    requires
        forall|a: int| 0 <= a < ops.len() ==> (#[trigger] ops[a]).operation == Operation::Write
            && ops[a].entries is WriteEntries,
    ensures
        !apply_plan(ops).1,
        forall|k: int| 0 <= k < apply_plan(ops).0.len() ==> writes_a_pair_of(ops, #[trigger] apply_plan(ops).0[k]),
        forall|a: int, j: int|
            0 <= a < ops.len() && 0 <= j < write_pairs(ops[a]).len() ==> exists|k: int|
                0 <= k < apply_plan(ops).0.len() && #[trigger] apply_plan(ops).0[k] == #[trigger] write_step(
                    ops[a].component@,
                    ops[a].version,
                    write_pairs(ops[a])[j],
                ),
    decreases ops.len(),
{
    if ops.len() > 0 {
        let pre = ops.drop_last();
        let e = ops.last();
        assert forall|a: int| 0 <= a < pre.len() implies (#[trigger] pre[a]).operation == Operation::Write
            && pre[a].entries is WriteEntries by {
            assert(pre[a] == ops[a]);
        }
        lemma_plan_of_writes(pre);
        assert(e == ops[ops.len() - 1]);
        let kvs = write_pairs(e);
        let p = kvs.map_values(|kv: (String, String)| write_step(e.component@, e.version, kv));
        assert(entry_steps(e) == Some(p));
        let base = apply_plan(pre).0;
        let all = apply_plan(ops).0;
        assert(all == base + p);
        assert forall|k: int| 0 <= k < all.len() implies writes_a_pair_of(ops, #[trigger] all[k]) by {
            if k < base.len() {
                assert(all[k] == base[k]);
                assert(writes_a_pair_of(pre, base[k]));
                let (a, j) = choose|a: int, j: int|
                    0 <= a < pre.len() && 0 <= j < write_pairs(pre[a]).len() && base[k] == #[trigger] write_step(
                        pre[a].component@,
                        pre[a].version,
                        #[trigger] write_pairs(pre[a])[j],
                    );
                assert(pre[a] == ops[a]);
                assert(write_step(ops[a].component@, ops[a].version, write_pairs(ops[a])[j]) == all[k]);
            } else {
                let j = k - base.len();
                assert(all[k] == p[j]);
                let a = ops.len() - 1;
                assert(write_step(ops[a].component@, ops[a].version, write_pairs(ops[a])[j]) == all[k]);
            }
        }
        assert forall|a: int, j: int|
            0 <= a < ops.len() && 0 <= j < write_pairs(ops[a]).len() implies exists|k: int|
                0 <= k < all.len() && #[trigger] all[k] == #[trigger] write_step(
                    ops[a].component@,
                    ops[a].version,
                    write_pairs(ops[a])[j],
                ) by {
            if a < pre.len() {
                assert(pre[a] == ops[a]);
                let k = choose|k: int|
                    0 <= k < base.len() && #[trigger] base[k] == #[trigger] write_step(
                        pre[a].component@,
                        pre[a].version,
                        write_pairs(pre[a])[j],
                    );
                assert(all[k] == base[k]);
            } else {
                assert(all[base.len() + j] == p[j]);
            }
        }
    }
}

/// Applying a backup writes back what it holds and nothing else: it does not
/// stop, every step it takes writes the backed-up content of a backed-up entry,
/// and every backed-up entry is written with its content.
pub proof fn lemma_apply_restores_backup(items: Seq<BackupItem>, ops: Seq<Entry>)
    requires
        operations_denote(ops, backup_map(items)),
    ensures
        !apply_plan(ops).1,
        forall|k: int|
            #![trigger apply_plan(ops).0[k]]
            0 <= k < apply_plan(ops).0.len() ==> {
                let s = apply_plan(ops).0[k];
                let key = (s.component, s.version);
                &&& s.operation == Operation::Write
                &&& backup_map(items).dom().contains(key)
                &&& backup_map(items)[key].dom().contains(s.key)
                &&& s.value == Some(backup_map(items)[key][s.key])
            },
        forall|c: Seq<char>, v: u64, n: Seq<char>|
            #![trigger backup_map(items)[(c, v)][n]]
            backup_map(items).dom().contains((c, v)) && backup_map(items)[(c, v)].dom().contains(n)
                ==> exists|k: int|
                0 <= k < apply_plan(ops).0.len() && #[trigger] apply_plan(ops).0[k] == written(c, v, n, backup_map(items)[(c, v)][n]),
{
    let m = backup_map(items);
    lemma_plan_of_writes(ops);
    let all = apply_plan(ops).0;
    assert forall|k: int| #![trigger all[k]] 0 <= k < all.len() implies {
        let s = all[k];
        let key = (s.component, s.version);
        &&& s.operation == Operation::Write
        &&& m.dom().contains(key)
        &&& m[key].dom().contains(s.key)
        &&& s.value == Some(m[key][s.key])
    } by {
        assert(writes_a_pair_of(ops, all[k]));
        let (a, j) = choose|a: int, j: int|
            0 <= a < ops.len() && 0 <= j < write_pairs(ops[a]).len() && all[k] == #[trigger] write_step(
                ops[a].component@,
                ops[a].version,
                #[trigger] write_pairs(ops[a])[j],
            );
        let key = group_key(ops[a]);
        assert(m.dom().contains(key));
        assert(pairs_denote(write_pairs(ops[a]), m[key]));
        let kv = write_pairs(ops[a])[j];
        assert(m[key].dom().contains(kv.0@));
    }
    assert forall|c: Seq<char>, v: u64, n: Seq<char>|
        #![trigger m[(c, v)][n]]
        m.dom().contains((c, v)) && m[(c, v)].dom().contains(n) implies exists|k: int|
            0 <= k < all.len() && #[trigger] all[k] == written(c, v, n, m[(c, v)][n]) by {
        let a = choose|a: int| 0 <= a < ops.len() && group_key(#[trigger] ops[a]) == (c, v);
        assert(pairs_denote(write_pairs(ops[a]), m[(c, v)]));
        let j = choose|j: int| 0 <= j < write_pairs(ops[a]).len() && (#[trigger] write_pairs(ops[a])[j]).0@ == n;
        let k = choose|k: int|
            0 <= k < all.len() && #[trigger] all[k] == #[trigger] write_step(
                ops[a].component@,
                ops[a].version,
                write_pairs(ops[a])[j],
            );
        assert(all[k] == written(c, v, n, m[(c, v)][n]));
    }
}

} // verus!
