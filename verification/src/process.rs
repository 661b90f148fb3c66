//! The process catalog: a snapshot of the running processes and of the
//! sockets' ports, the lookups by PID, port and name, and the listing of
//! processes for the interactive picker.

use std::collections::{BTreeMap, BTreeSet};
use vstd::prelude::*;
use vstd::laws_cmp::obeys_cmp;
use vstd::std_specs::iter::IteratorSpec;

use crate::input::{Target, TargetView};
use crate::killer::no_matches_message;
use crate::text::{
    char_is_uppercase, chars_of, contains, join, join_strings, lemma_prefix_first, lemma_text_lt_strict, lemma_text_lt_total, lowercase,
    seq_contains, string_of, text_equal, text_less, text_lt, to_lowercase, uppercase_char, views,
};

verus! {

broadcast use vstd::std_specs::btree::group_btree_axioms;

/// The key-value pairs of a table of sets.
pub open spec fn pairs<K, V>(m: Map<K, BTreeSet<V>>) -> Set<(K, V)> {
    Set::new(|kv: (K, V)| m.contains_key(kv.0) && m[kv.0]@.contains(kv.1))
}

/// No key of the table maps to an empty set.
pub open spec fn no_empty_sets<K, V>(m: Map<K, BTreeSet<V>>) -> bool {
    forall|k: K| m.contains_key(k) ==> exists|v: V| #[trigger] m[k]@.contains(v)
}

/// Adds `v` to the set of `k`, creating the set where there is none.
fn add_pair<K: Ord, V: Ord>(m: &mut BTreeMap<K, BTreeSet<V>>, k: K, v: V)
    requires
        obeys_cmp::<K>(),
        obeys_cmp::<V>(),
    ensures
        pairs(final(m)@) == pairs(old(m)@).insert((k, v)),
        no_empty_sets(old(m)@) ==> no_empty_sets(final(m)@),
        final(m)@.dom() == old(m)@.dom().insert(k),
{
    let ghost before = m@;
    let mut set = match m.remove(&k) {
        Some(s) => s,
        None => BTreeSet::new(),
    };
    let ghost old_set = set@;
    set.insert(v);
    m.insert(k, set);
    assert(pairs(m@) =~= pairs(before).insert((k, v))) by {
        assert forall|kv: (K, V)| pairs(m@).contains(kv) <==> pairs(before).insert((k, v)).contains(
            kv,
        ) by {
            if kv.0 == k {
                if before.contains_key(k) {
                    assert(old_set == before[k]@);
                } else {
                    assert(old_set == Set::<V>::empty());
                }
            }
        }
    }
    assert forall|j: K| m@.contains_key(j) && no_empty_sets(before) implies exists|w: V|
        #[trigger] m@[j]@.contains(w) by {
        if j == k {
            assert(m@[j]@.contains(v));
        } else {
            assert(before.contains_key(j));
        }
    }
    assert(m@.dom() =~= before.dom().insert(k));
}

/// What the library reads of one running process.
pub struct ProcessEntry {
    pub pid: u32,
    /// The process name.
    pub name: String,
    /// The command line, one string per argument.
    pub cmd: Vec<String>,
}

/// One socket: its local port and the processes that hold it.
pub struct SocketEntry {
    pub local_port: u16,
    pub pids: Vec<u32>,
}

/// One line of the process listing.
#[derive(Clone, Debug)]
pub struct ProcessRecord {
    pub pid: u32,
    pub name: String,
    /// The command line, its arguments joined with spaces.
    pub cmd: String,
    /// The local ports of the sockets that the process holds.
    pub ports: BTreeSet<u16>,
}

/// A process record as a mathematical value.
pub struct RecordView {
    pub pid: u32,
    pub name: Seq<char>,
    pub cmd: Seq<char>,
    pub ports: Set<u16>,
}

impl View for ProcessRecord {
    type V = RecordView;

    open spec fn view(&self) -> RecordView {
        RecordView { pid: self.pid, name: self.name@, cmd: self.cmd@, ports: self.ports@ }
    }
}

/// The listing order: by name, then by PID.
pub open spec fn record_lt(a: RecordView, b: RecordView) -> bool {
    text_lt(a.name, b.name) || (a.name == b.name && a.pid < b.pid)
}

/// The listing order is a strict order: irreflexive and transitive.
pub proof fn lemma_record_lt_strict(a: RecordView, b: RecordView, c: RecordView)
    ensures
        !record_lt(a, a),
        record_lt(a, b) && record_lt(b, c) ==> record_lt(a, c),
{
    lemma_text_lt_strict(a.name, b.name, c.name);
}

/// Records with different PIDs are ordered one way or the other.
pub proof fn lemma_record_lt_total(a: RecordView, b: RecordView)
    requires
        a.pid != b.pid,
    ensures
        record_lt(a, b) || record_lt(b, a),
{
    if a.name != b.name {
        lemma_text_lt_total(a.name, b.name);
    }
}

/// In the listing a process whose name is a proper prefix of another's comes
/// first, whatever the PIDs ("python" before "python3", "Code" before
/// "Code Helper").
pub proof fn lemma_prefix_name_first(a: RecordView, b: RecordView, rest: Seq<char>)
    requires
        rest.len() > 0,
        b.name == a.name + rest,
    ensures
        record_lt(a, b),
        !record_lt(b, a),
{
    lemma_prefix_first(a.name, rest);
    assert(a.name != b.name) by {
        assert(b.name.len() == a.name.len() + rest.len());
    }
}

/// Records in strictly increasing listing order.
pub open spec fn strictly_listed(s: Seq<RecordView>) -> bool {
    forall|i: int, j: int| 0 <= i < j < s.len() ==> record_lt(#[trigger] s[i], #[trigger] s[j])
}

/// Two lists in strictly increasing listing order with the same records are
/// equal.
pub proof fn lemma_strictly_listed_unique(a: Seq<RecordView>, b: Seq<RecordView>)
    requires
        strictly_listed(a),
        strictly_listed(b),
        a.to_set() == b.to_set(),
    ensures
        a == b,
    decreases a.len(),
{
    if a.len() == 0 {
        if b.len() > 0 {
            assert(b.to_set().contains(b[0]));
        }
        assert(a =~= b);
    } else {
        assert(a.to_set().contains(a[0]));
        assert(b.len() > 0);
        assert(b.to_set().contains(b[0]));
        let i = choose|i: int| 0 <= i < b.len() && b[i] == a[0];
        let j = choose|j: int| 0 <= j < a.len() && a[j] == b[0];
        assert(a[0] == b[0]) by {
            if i > 0 && j > 0 {
                assert(record_lt(b[0], b[i]));
                assert(record_lt(a[0], a[j]));
                lemma_record_lt_strict(a[0], b[0], a[0]);
            } else if i > 0 {
                assert(b[0] == a[0]);
            }
        }
        let ta = a.drop_first();
        let tb = b.drop_first();
        assert(ta.to_set() =~= tb.to_set()) by {
            assert forall|x: RecordView| ta.to_set().contains(x) implies tb.to_set().contains(x) by {
                let k = choose|k: int| 0 <= k < ta.len() && ta[k] == x;
                assert(a[k + 1] == x);
                assert(b.to_set().contains(x));
                let m = choose|m: int| 0 <= m < b.len() && b[m] == x;
                if m == 0 {
                    assert(record_lt(a[0], a[k + 1]));
                    lemma_record_lt_strict(x, x, x);
                }
                assert(tb[m - 1] == x);
            }
            assert forall|x: RecordView| tb.to_set().contains(x) implies ta.to_set().contains(x) by {
                let k = choose|k: int| 0 <= k < tb.len() && tb[k] == x;
                assert(b[k + 1] == x);
                assert(a.to_set().contains(x));
                let m = choose|m: int| 0 <= m < a.len() && a[m] == x;
                if m == 0 {
                    assert(record_lt(b[0], b[k + 1]));
                    lemma_record_lt_strict(x, x, x);
                }
                assert(ta[m - 1] == x);
            }
        }
        lemma_strictly_listed_unique(ta, tb);
        assert(ta.len() == tb.len());
        assert(a =~= b) by {
            assert forall|k: int| 0 <= k < a.len() implies a[k] == b[k] by {
                if k > 0 {
                    assert(a[k] == ta[k - 1]);
                    assert(b[k] == tb[k - 1]);
                }
            }
        }
    }
}

/// No two processes share a PID.
pub open spec fn distinct_pids(s: Seq<ProcessEntry>) -> bool {
    forall|i: int, j: int| 0 <= i < j < s.len() ==> #[trigger] s[i].pid != #[trigger] s[j].pid
}

/// The views of a list of records.
pub open spec fn record_views(s: Seq<ProcessRecord>) -> Seq<RecordView> {
    s.map_values(|r: ProcessRecord| r@)
}

/// The records are in listing order.
pub open spec fn in_listing_order(s: Seq<RecordView>) -> bool {
    forall|i: int, j: int| 0 <= i < j < s.len() ==> !record_lt(#[trigger] s[j], #[trigger] s[i])
}

fn record_less(a: &ProcessRecord, a_name: &Vec<char>, b: &ProcessRecord, b_name: &Vec<char>) -> (r:
    bool)
    requires
        a_name@ == a.name@,
        b_name@ == b.name@,
    ensures
        r == record_lt(a@, b@),
{
    text_less(a_name, b_name) || (text_equal(a_name, b_name) && a.pid < b.pid)
}

/// The pairs of port and PID that the sockets show.
pub open spec fn socket_pairs(sockets: Seq<SocketEntry>) -> Set<(u16, u32)> {
    Set::new(
        |pp: (u16, u32)|
            exists|i: int|
                0 <= i < sockets.len() && sockets[i].local_port == pp.0 && #[trigger] sockets[i].pids@.contains(
                    pp.1,
                ),
    )
}

/// The command line of a process as one string: its arguments joined with
/// spaces.
pub open spec fn command_line(cmd: Seq<String>) -> Seq<char> {
    join(views(cmd), " "@)
}

/// The text has a character with Unicode's `Uppercase` property.
pub open spec fn has_uppercase(s: Seq<char>) -> bool {
    exists|i: int| 0 <= i < s.len() && uppercase_char(#[trigger] s[i])
}

/// Whether a process with this name and command line matches `needle`.
/// The match is a substring match in the name or in the command line;
/// case-insensitive (both sides lower-cased) unless `case_sensitive` is set
/// or the needle has an upper-case letter (smart case).
pub open spec fn name_match(
    name: Seq<char>,
    cmd: Seq<char>,
    needle: Seq<char>,
    case_sensitive: bool,
) -> bool {
    if case_sensitive || has_uppercase(needle) {
        contains(name, needle) || contains(cmd, needle)
    } else {
        contains(lowercase(name), lowercase(needle)) || contains(
            lowercase(cmd),
            lowercase(needle),
        )
    }
}

/// Smart case: a needle with an upper-case letter is matched with case,
/// whatever the flag says.
pub proof fn lemma_smart_case(name: Seq<char>, cmd: Seq<char>, needle: Seq<char>)
    requires
        has_uppercase(needle),
    ensures
        name_match(name, cmd, needle, false) == name_match(name, cmd, needle, true),
{
}

/// Without `-c` and with a needle that has no upper-case letter, both the
/// name and the command line are searched lower-cased, for the lower-cased
/// needle.
pub proof fn lemma_case_insensitive_match(name: Seq<char>, cmd: Seq<char>, needle: Seq<char>)
    requires
        !has_uppercase(needle),
    ensures
        name_match(name, cmd, needle, false) == (contains(lowercase(name), lowercase(needle))
            || contains(lowercase(cmd), lowercase(needle))),
        contains(lowercase(cmd), lowercase(needle)) ==> name_match(name, cmd, needle, false),
        contains(lowercase(name), lowercase(needle)) ==> name_match(name, cmd, needle, false),
{
}

/// Case-sensitive matching is plain substring search in the name and in the
/// command line.
pub proof fn lemma_case_sensitive_match(name: Seq<char>, cmd: Seq<char>, needle: Seq<char>)
    ensures
        name_match(name, cmd, needle, true) == (contains(name, needle) || contains(cmd, needle)),
{
}

/// The processes that the machine runs, with the ports of their sockets.
pub struct ProcessCatalog {
    processes: Vec<ProcessEntry>,
    pids_by_port: BTreeMap<u16, BTreeSet<u32>>,
    ports_by_pid: BTreeMap<u32, BTreeSet<u16>>,
    current_pid: u32,
}


/// The pairs of the first `n` sockets.
pub open spec fn first_pairs(sockets: Seq<SocketEntry>, n: int) -> Set<(u16, u32)> {
    Set::new(
        |pp: (u16, u32)|
            exists|i: int|
                0 <= i < n && sockets[i].local_port == pp.0 && #[trigger] sockets[i].pids@.contains(
                    pp.1,
                ),
    )
}

proof fn lemma_push_contains<A>(s: Seq<A>, x: A, y: A)
    ensures
        s.push(x).contains(y) <==> (s.contains(y) || y == x),
{
    if s.push(x).contains(y) {
        let k = choose|k: int| 0 <= k < s.len() + 1 && s.push(x)[k] == y;
        if k < s.len() {
            assert(s[k] == y);
        }
    }
    if s.contains(y) {
        let k = choose|k: int| 0 <= k < s.len() && s[k] == y;
        assert(s.push(x)[k] == y);
    }
    if y == x {
        assert(s.push(x)[s.len() as int] == x);
    }
}

/// The pairs of `port` with the first `n` of `pids`.
pub open spec fn port_part(port: u16, pids: Seq<u32>, n: int) -> Set<(u16, u32)> {
    Set::new(|pp: (u16, u32)| pp.0 == port && pids.take(n).contains(pp.1))
}

/// The pairs of each of the first `n` of `members` with `port`.
pub open spec fn member_part(port: u16, members: Seq<&u32>, n: int) -> Set<(u32, u16)> {
    Set::new(|pp: (u32, u16)| pp.1 == port && members.take(n).unref().contains(pp.0))
}

/// The pairs of a table with key and value swapped.
pub open spec fn swapped(s: Set<(u16, u32)>) -> Set<(u32, u16)> {
    Set::new(|pp: (u32, u16)| s.contains((pp.1, pp.0)))
}

/// The processes of each port, from the sockets: a port is in the table when
/// some socket on it is held by a process.
pub fn port_map(sockets: &Vec<SocketEntry>) -> (r: BTreeMap<u16, BTreeSet<u32>>)
    ensures
        pairs(r@) == socket_pairs(sockets@),
        no_empty_sets(r@),
{
    let mut r: BTreeMap<u16, BTreeSet<u32>> = BTreeMap::new();
    assert(pairs(r@) =~= first_pairs(sockets@, 0));
    for i in 0..sockets.len()
        invariant
            pairs(r@) == first_pairs(sockets@, i as int),
            no_empty_sets(r@),
    {
        let port = sockets[i].local_port;
        let pids = &sockets[i].pids;
        assert(pairs(r@) =~= first_pairs(sockets@, i as int) + port_part(port, pids@, 0));
        for j in 0..pids.len()
            invariant
                port == sockets@[i as int].local_port,
                pids@ == sockets@[i as int].pids@,
                pairs(r@) == first_pairs(sockets@, i as int) + port_part(port, pids@, j as int),
                no_empty_sets(r@),
        {
            add_pair(&mut r, port, pids[j]);
            assert(pids@.take(j + 1) =~= pids@.take(j as int).push(pids@[j as int]));
            assert forall|pp: (u16, u32)| #[trigger] port_part(port, pids@, j + 1).contains(pp) <==> (
                port_part(port, pids@, j as int).contains(pp) || pp == (port, pids@[j as int])) by {
                lemma_push_contains(pids@.take(j as int), pids@[j as int], pp.1);
            }
            assert(pairs(r@) =~= first_pairs(sockets@, i as int) + port_part(port, pids@, j + 1));
        }
        assert(pids@.take(pids@.len() as int) =~= pids@);
        assert(first_pairs(sockets@, i as int) + port_part(port, pids@, pids@.len() as int) =~= first_pairs(
            sockets@,
            i + 1,
        )) by {
            assert forall|pp: (u16, u32)|
                #![trigger first_pairs(sockets@, i + 1).contains(pp)]
                first_pairs(sockets@, i + 1).contains(pp) implies first_pairs(
                sockets@,
                i as int,
            ).contains(pp) || port_part(port, pids@, pids@.len() as int).contains(pp) by {
                let k = choose|k: int|
                    0 <= k < i + 1 && sockets@[k].local_port == pp.0
                        && #[trigger] sockets@[k].pids@.contains(pp.1);
                if k < i {
                    assert(first_pairs(sockets@, i as int).contains(pp));
                }
            }
        }
    }
    assert(first_pairs(sockets@, sockets@.len() as int) =~= socket_pairs(sockets@));
    r
}

/// Among the first `n` entries of a table's listing, `port` has `pid`.
pub open spec fn listed(entries: Seq<(&u16, &BTreeSet<u32>)>, n: int, port: u16, pid: u32) -> bool {
    exists|k: int| 0 <= k < n && *entries[k].0 == port && #[trigger] entries[k].1@.contains(pid)
}

/// The pairs seen in the first `n` entries of a table's listing.
pub open spec fn listed_pairs(entries: Seq<(&u16, &BTreeSet<u32>)>, n: int) -> Set<(u16, u32)> {
    Set::new(|pp: (u16, u32)| listed(entries, n, pp.0, pp.1))
}

/// The ports of each process: the table of processes by port, turned round.
pub fn reverse_port_map(port_map: &BTreeMap<u16, BTreeSet<u32>>) -> (r: BTreeMap<
    u32,
    BTreeSet<u16>,
>)
    ensures
        pairs(r@) == swapped(pairs(port_map@)),
        no_empty_sets(r@),
{
    let mut r: BTreeMap<u32, BTreeSet<u16>> = BTreeMap::new();
    let ghost entries = vstd::std_specs::btree::spec_btree_map_iter(port_map).remaining();
    assert(pairs(r@) =~= swapped(listed_pairs(entries, 0)));
    for (port, pids) in it: port_map.iter()
        invariant
            it.seq() == entries,
            entries == vstd::std_specs::btree::spec_btree_map_iter(port_map).remaining(),
            pairs(r@) == swapped(listed_pairs(entries, it.index())),
            no_empty_sets(r@),
    {
        let ghost i = it.index();
        let ghost members = vstd::std_specs::btree::spec_btree_keys_iter(pids).remaining();
        assert(pairs(r@) =~= swapped(listed_pairs(entries, i)) + member_part(*port, members, 0));
        for pid in jt: pids.iter()
            invariant
                jt.seq() == members,
                members == vstd::std_specs::btree::spec_btree_keys_iter(pids).remaining(),
                pairs(r@) == swapped(listed_pairs(entries, i)) + member_part(*port, members, jt.index()),
                no_empty_sets(r@),
        {
            add_pair(&mut r, *pid, *port);
            assert(members.take(jt.index() + 1).unref() =~= members.take(jt.index()).unref().push(
                *pid,
            ));
            assert forall|pp: (u32, u16)| #[trigger] member_part(
                *port,
                members,
                jt.index() + 1,
            ).contains(pp) <==> (member_part(*port, members, jt.index()).contains(pp) || pp == (
                *pid,
                *port,
            )) by {
                lemma_push_contains(members.take(jt.index()).unref(), *pid, pp.0);
            }
            assert(pairs(r@) =~= swapped(listed_pairs(entries, i)) + member_part(*port, members, jt.index() + 1));
        }
        assert(members.take(members.len() as int) =~= members);
        assert(members.unref().to_set() == pids@);
        assert(swapped(listed_pairs(entries, i)) + member_part(*port, members, members.len() as int) =~= swapped(
            listed_pairs(entries, i + 1),
        )) by {
            assert(entries[i] == (port, pids));
            assert forall|pp: (u32, u16)|
                #![trigger swapped(listed_pairs(entries, i + 1)).contains(pp)]
                swapped(listed_pairs(entries, i + 1)).contains(pp) implies swapped(
                listed_pairs(entries, i),
            ).contains(pp) || member_part(*port, members, members.len() as int).contains(pp) by {
                let k = choose|k: int|
                    0 <= k < i + 1 && *entries[k].0 == pp.1
                        && #[trigger] entries[k].1@.contains(pp.0);
                if k < i {
                    assert(listed_pairs(entries, i).contains((pp.1, pp.0)));
                } else {
                    assert(members.unref().to_set().contains(pp.0));
                }
            }
            assert forall|pp: (u32, u16)|
                #![trigger member_part(*port, members, members.len() as int).contains(pp)]
                member_part(*port, members, members.len() as int).contains(pp) implies swapped(
                listed_pairs(entries, i + 1),
            ).contains(pp) by {
                assert(members.unref().to_set().contains(pp.0));
                assert(entries[i].1@.contains(pp.0));
                assert(*entries[i].0 == pp.1);
                assert(0 <= i < i + 1);
                assert(listed(entries, i + 1, pp.1, pp.0));
                assert(listed_pairs(entries, i + 1).contains((pp.1, pp.0)));
            }
        }
    }
    assert(listed_pairs(entries, entries.len() as int) =~= pairs(port_map@)) by {
        assert forall|pp: (u16, u32)| pairs(port_map@).contains(pp) implies #[trigger] listed_pairs(
            entries,
            entries.len() as int,
        ).contains(pp) by {
            assert(entries.contains((&pp.0, &port_map@[pp.0])));
            let k = choose|k: int| 0 <= k < entries.len() && entries[k] == (&pp.0, &port_map@[pp.0]);
            assert(entries[k].1@.contains(pp.1));
        }
        assert forall|pp: (u16, u32)| #[trigger] listed_pairs(
            entries,
            entries.len() as int,
        ).contains(pp) implies pairs(port_map@).contains(pp) by {
            let k = choose|k: int|
                0 <= k < entries.len() && *entries[k].0 == pp.0 && #[trigger] entries[k].1@.contains(
                    pp.1,
                );
            assert(port_map@.contains_key(*entries[k].0) && port_map@[*entries[k].0] == *entries[k].1);
        }
    }
    r
}


/// The command line of a process as one string: its arguments joined with
/// spaces.
pub fn join_cmd(parts: &Vec<String>) -> (r: String)
    ensures
        r@ == command_line(parts@),
{
    join_strings(parts, " ")
}

fn any_uppercase(s: &str) -> (r: bool)
    ensures
        r == has_uppercase(s@),
{
    let chars = chars_of(s);
    for i in 0..chars.len()
        invariant
            chars@ == s@,
            forall|k: int| 0 <= k < i ==> !uppercase_char(#[trigger] s@[k]),
    {
        if char_is_uppercase(chars[i]) {
            return true;
        }
    }
    false
}

/// Whether a process with this name and command line matches `needle`
/// (see `name_match`).
pub fn name_matches(name: &str, cmd: &str, needle: &str, case_sensitive: bool) -> (r: bool)
    ensures
        r == name_match(name@, cmd@, needle@, case_sensitive),
{
    let smart_case = case_sensitive || any_uppercase(needle);
    let query = if smart_case {
        string_of(needle)
    } else {
        to_lowercase(needle)
    };
    let haystack_name = if smart_case {
        string_of(name)
    } else {
        to_lowercase(name)
    };
    let haystack_cmd = if smart_case {
        string_of(cmd)
    } else {
        to_lowercase(cmd)
    };
    let query_chars = chars_of(query.as_str());
    let name_chars = chars_of(haystack_name.as_str());
    let cmd_chars = chars_of(haystack_cmd.as_str());
    seq_contains(&name_chars, &query_chars) || seq_contains(&cmd_chars, &query_chars)
}


/// The views of a list of targets.
pub open spec fn target_views(targets: Seq<Target>) -> Seq<TargetView> {
    targets.map_values(|t: Target| t@)
}

impl ProcessCatalog {
    /// The catalog holds at most one process per PID.
    #[verifier::type_invariant]
    spec fn pids_unique(self) -> bool {
        distinct_pids(self.processes@)
    }

    /// The processes of the snapshot.
    pub closed spec fn entries(&self) -> Seq<ProcessEntry> {
        self.processes@
    }

    /// The processes of each port.
    pub closed spec fn port_table(&self) -> Map<u16, BTreeSet<u32>> {
        self.pids_by_port@
    }

    /// The ports of each process.
    pub closed spec fn pid_table(&self) -> Map<u32, BTreeSet<u16>> {
        self.ports_by_pid@
    }

    /// The id of this process.
    pub closed spec fn current(&self) -> u32 {
        self.current_pid
    }

    /// A process with this id is in the snapshot.
    pub open spec fn running(&self, pid: u32) -> bool {
        exists|i: int| 0 <= i < self.entries().len() && #[trigger] self.entries()[i].pid == pid
    }

    /// The ports of a process (none when it holds no socket).
    pub open spec fn ports_of(&self, pid: u32) -> Set<u16> {
        if self.pid_table().contains_key(pid) {
            self.pid_table()[pid]@
        } else {
            Set::empty()
        }
    }

    /// The processes of a port (none when no socket is on it).
    pub open spec fn holders_of(&self, port: u16) -> Set<u32> {
        if self.port_table().contains_key(port) {
            self.port_table()[port]@
        } else {
            Set::empty()
        }
    }

    /// The processes, other than this one, whose name or command line
    /// matches `needle`.
    pub open spec fn name_hits(&self, needle: Seq<char>, case_sensitive: bool) -> Set<u32> {
        Set::new(
            |pid: u32|
                pid != self.current() && exists|i: int|
                    0 <= i < self.entries().len() && #[trigger] self.entries()[i].pid == pid
                        && name_match(
                        self.entries()[i].name@,
                        command_line(self.entries()[i].cmd@),
                        needle,
                        case_sensitive,
                    ),
        )
    }

    /// The processes that one target names: the PID if such a process runs,
    /// the processes of the port, or the processes that match the name.
    pub open spec fn target_hits(&self, target: TargetView, case_sensitive: bool) -> Set<u32> {
        match target {
            TargetView::Pid(pid) => if self.running(pid) {
                set![pid]
            } else {
                Set::empty()
            },
            TargetView::Port(port) => self.holders_of(port),
            TargetView::Name(name) => self.name_hits(name, case_sensitive),
        }
    }

    /// The processes that some of the targets name.
    pub open spec fn hits(&self, targets: Seq<TargetView>, case_sensitive: bool) -> Set<u32>
        decreases targets.len(),
    {
        if targets.len() == 0 {
            Set::empty()
        } else {
            self.hits(targets.drop_last(), case_sensitive) + self.target_hits(
                targets.last(),
                case_sensitive,
            )
        }
    }

    /// The processes that the targets resolve to: all that some target
    /// names, but this process.
    pub open spec fn resolved(&self, targets: Seq<TargetView>, case_sensitive: bool) -> Set<u32> {
        self.hits(targets, case_sensitive).remove(self.current())
    }

    /// The listing line of a process.
    pub open spec fn record_of(&self, e: ProcessEntry) -> RecordView {
        RecordView {
            pid: e.pid,
            name: e.name@,
            cmd: command_line(e.cmd@),
            ports: self.ports_of(e.pid),
        }
    }

    /// A catalog of the given processes and sockets; `current_pid` is the id
    /// of this process.
    pub fn load(processes: Vec<ProcessEntry>, sockets: &Vec<SocketEntry>, current_pid: u32) -> (r:
        ProcessCatalog)
        requires
            distinct_pids(processes@),
        ensures
            r.entries() == processes@,
            pairs(r.port_table()) == socket_pairs(sockets@),
            no_empty_sets(r.port_table()),
            pairs(r.pid_table()) == swapped(pairs(r.port_table())),
            no_empty_sets(r.pid_table()),
            r.current() == current_pid,
    {
        let pids_by_port = port_map(sockets);
        let ports_by_pid = reverse_port_map(&pids_by_port);
        ProcessCatalog { processes, pids_by_port, ports_by_pid, current_pid }
    }

    /// The id of this process.
    pub fn current_pid(&self) -> (r: u32)
        ensures
            r == self.current(),
    {
        self.current_pid
    }

    fn record(&self, e: &ProcessEntry) -> (r: ProcessRecord)
        ensures
            r@ == self.record_of(*e),
    {
        let ports = match self.ports_by_pid.get(&e.pid) {
            Some(set) => set.clone(),
            None => BTreeSet::new(),
        };
        ProcessRecord { pid: e.pid, name: e.name.clone(), cmd: join_cmd(&e.cmd), ports }
    }

    fn match_by_name(&self, needle: &str, case_sensitive: bool) -> (r: BTreeSet<u32>)
        ensures
            r@ == self.name_hits(needle@, case_sensitive),
    {
        let mut found: BTreeSet<u32> = BTreeSet::new();
        for i in 0..self.processes.len()
            invariant
                found@ == Set::new(
                    |pid: u32|
                        pid != self.current() && exists|k: int|
                            0 <= k < i && #[trigger] self.entries()[k].pid == pid && name_match(
                                self.entries()[k].name@,
                                command_line(self.entries()[k].cmd@),
                                needle@,
                                case_sensitive,
                            ),
                ),
        {
            let e = &self.processes[i];
            if e.pid != self.current_pid {
                let cmd = join_cmd(&e.cmd);
                if name_matches(e.name.as_str(), cmd.as_str(), needle, case_sensitive) {
                    found.insert(e.pid);
                }
            }
            assert(found@ =~= Set::new(
                |pid: u32|
                    pid != self.current() && exists|k: int|
                        0 <= k < i + 1 && #[trigger] self.entries()[k].pid == pid && name_match(
                            self.entries()[k].name@,
                            command_line(self.entries()[k].cmd@),
                            needle@,
                            case_sensitive,
                        ),
            ));
        }
        assert(found@ =~= self.name_hits(needle@, case_sensitive));
        found
    }

    fn is_running(&self, pid: u32) -> (r: bool)
        ensures
            r == self.running(pid),
    {
        for i in 0..self.processes.len()
            invariant
                forall|k: int| 0 <= k < i ==> #[trigger] self.entries()[k].pid != pid,
        {
            if self.processes[i].pid == pid {
                assert(self.entries()[i as int].pid == pid);
                return true;
            }
        }
        false
    }

    /// The processes that the targets resolve to (see `resolved`): an error
    /// when there are none.
    pub fn resolve_targets(&self, targets: &[Target], case_sensitive: bool) -> (r: Result<
        BTreeSet<u32>,
        String,
    >)
        ensures
            match r {
                Ok(pids) => {
                    &&& pids@ == self.resolved(target_views(targets@), case_sensitive)
                    &&& !pids@.is_empty()
                },
                Err(message) => {
                    &&& self.resolved(target_views(targets@), case_sensitive).is_empty()
                    &&& message@ == no_matches_message()
                },
            },
            r matches Ok(pids) ==> !pids@.contains(self.current()),
    {
        let mut matches: BTreeSet<u32> = BTreeSet::new();
        let ghost all = target_views(targets@);
        for i in 0..targets.len()
            invariant
                all == target_views(targets@),
                matches@ == self.hits(all.take(i as int), case_sensitive),
        {
            assert(all.take(i + 1).drop_last() == all.take(i as int));
            assert(all.take(i + 1).last() == targets@[i as int]@);
            let ghost before = matches@;
            match &targets[i] {
                Target::Pid(pid) => {
                    if self.is_running(*pid) {
                        matches.insert(*pid);
                    }
                },
                Target::Port(port) => {
                    if let Some(pids) = self.pids_by_port.get(port) {
                        let ghost mid = matches@;
                        for p in jt: pids.iter()
                            invariant
                                jt.seq() == vstd::std_specs::btree::spec_btree_keys_iter(
                                    pids,
                                ).remaining(),
                                matches@ == mid + jt.seq().take(jt.index()).unref().to_set(),
                        {
                            matches.insert(*p);
                            assert(jt.seq().take(jt.index() + 1).unref() =~= jt.seq().take(
                                jt.index(),
                            ).unref().push(*p));
                            assert(mid + jt.seq().take(jt.index() + 1).unref().to_set() =~= mid
                                + jt.seq().take(jt.index()).unref().to_set().insert(*p)) by {
                                assert forall|x: u32|
                                    #![trigger jt.seq().take(jt.index() + 1).unref().contains(x)]
                                    jt.seq().take(jt.index() + 1).unref().contains(x) <==> (
                                    jt.seq().take(jt.index()).unref().contains(x) || x == *p) by {
                                    lemma_push_contains(
                                        jt.seq().take(jt.index()).unref(),
                                        *p,
                                        x,
                                    );
                                }
                            }
                        }
                        assert(vstd::std_specs::btree::spec_btree_keys_iter(pids).remaining().take(
                            pids@.len() as int,
                        ) =~= vstd::std_specs::btree::spec_btree_keys_iter(pids).remaining());
                    }
                },
                Target::Name(name) => {
                    let named = self.match_by_name(name.as_str(), case_sensitive);
                    for p in jt: named.iter()
                        invariant
                            jt.seq() == vstd::std_specs::btree::spec_btree_keys_iter(
                                &named,
                            ).remaining(),
                            matches@ == before + jt.seq().take(jt.index()).unref().to_set(),
                    {
                        matches.insert(*p);
                        assert(jt.seq().take(jt.index() + 1).unref() =~= jt.seq().take(
                            jt.index(),
                        ).unref().push(*p));
                        assert(before + jt.seq().take(jt.index() + 1).unref().to_set() =~= before
                            + jt.seq().take(jt.index()).unref().to_set().insert(*p)) by {
                            assert forall|x: u32|
                                #![trigger jt.seq().take(jt.index() + 1).unref().contains(x)]
                                jt.seq().take(jt.index() + 1).unref().contains(x) <==> (
                                jt.seq().take(jt.index()).unref().contains(x) || x == *p) by {
                                lemma_push_contains(jt.seq().take(jt.index()).unref(), *p, x);
                            }
                        }
                    }
                    assert(vstd::std_specs::btree::spec_btree_keys_iter(&named).remaining().take(
                        named@.len() as int,
                    ) =~= vstd::std_specs::btree::spec_btree_keys_iter(&named).remaining());
                },
            }
            assert(matches@ =~= self.hits(all.take(i + 1), case_sensitive));
        }
        assert(all.take(targets@.len() as int) == all);
        matches.remove(&self.current_pid);
        if matches.is_empty() {
            return Err(string_of("no matching processes found"));
        }
        Ok(matches)
    }

    /// The listing lines of some processes.
    pub open spec fn records_of(&self, s: Seq<ProcessEntry>) -> Seq<RecordView> {
        s.map_values(|e: ProcessEntry| self.record_of(e))
    }

    /// The listing of the catalog: its lines in listing order.
    pub open spec fn listing(&self) -> Seq<RecordView> {
        choose|s: Seq<RecordView>|
            s.to_multiset() == self.records_of(self.entries()).to_multiset() && in_listing_order(s)
    }

    /// With distinct PIDs there is one listing: a list of the catalog's
    /// lines in listing order is the listing, so two listings of one catalog
    /// are equal line by line.
    pub proof fn lemma_listing_unique(&self, s: Seq<RecordView>)
        requires
            distinct_pids(self.entries()),
            s.to_multiset() == self.records_of(self.entries()).to_multiset(),
            in_listing_order(s),
        ensures
            s == self.listing(),
    {
        let t = self.listing();
        assert(s.to_multiset() == self.records_of(self.entries()).to_multiset() && in_listing_order(
            s,
        ));
        self.lemma_listed_strictly(s);
        self.lemma_listed_strictly(t);
        assert(s.to_set() =~= t.to_set()) by {
            assert forall|x: RecordView| s.to_set().contains(x) <==> t.to_set().contains(x) by {
                assert(s.to_multiset().count(x) == t.to_multiset().count(x));
                vstd::seq_lib::to_multiset_contains(s, x);
                vstd::seq_lib::to_multiset_contains(t, x);
            }
        }
        lemma_strictly_listed_unique(s, t);
    }

    proof fn lemma_listed_strictly(&self, s: Seq<RecordView>)
        requires
            distinct_pids(self.entries()),
            s.to_multiset() == self.records_of(self.entries()).to_multiset(),
            in_listing_order(s),
        ensures
            strictly_listed(s),
    {
        let es = self.entries();
        let rs = self.records_of(es);
        assert(rs.no_duplicates()) by {
            assert forall|i: int, j: int| 0 <= i < rs.len() && 0 <= j < rs.len() && i != j implies rs[i]
                != rs[j] by {
                if i < j {
                    assert(es[i].pid != es[j].pid);
                } else {
                    assert(es[j].pid != es[i].pid);
                }
            }
        }
        rs.lemma_multiset_has_no_duplicates();
        s.lemma_multiset_has_no_duplicates_conv();
        assert forall|i: int, j: int| 0 <= i < j < s.len() implies record_lt(
            #[trigger] s[i],
            #[trigger] s[j],
        ) by {
            assert(s.contains(s[i]));
            assert(s.contains(s[j]));
            vstd::seq_lib::to_multiset_contains(s, s[i]);
            vstd::seq_lib::to_multiset_contains(s, s[j]);
            vstd::seq_lib::to_multiset_contains(rs, s[i]);
            vstd::seq_lib::to_multiset_contains(rs, s[j]);
            assert(rs.contains(s[i]));
            assert(rs.contains(s[j]));
            let ki = choose|k: int| 0 <= k < rs.len() && rs[k] == s[i];
            let kj = choose|k: int| 0 <= k < rs.len() && rs[k] == s[j];
            assert(s[i] != s[j]);
            assert(ki != kj);
            if ki < kj {
                assert(es[ki].pid != es[kj].pid);
            } else {
                assert(es[kj].pid != es[ki].pid);
            }
            lemma_record_lt_total(s[i], s[j]);
        }
    }

    /// One listing line per process, by name and then by PID: the listing of
    /// the catalog, the same on every call.
    pub fn process_records(&self) -> (r: Vec<ProcessRecord>)
        ensures
            record_views(r@).to_multiset() == self.records_of(self.entries()).to_multiset(),
            in_listing_order(record_views(r@)),
            record_views(r@) == self.listing(),
    {
        proof {
            use_type_invariant(self);
        }
        let mut records: Vec<ProcessRecord> = Vec::new();
        let mut names: Vec<Vec<char>> = Vec::new();
        assert(record_views(records@) =~= self.records_of(self.entries().take(0)));
        for i in 0..self.processes.len()
            invariant
                records@.len() == names@.len(),
                forall|k: int| 0 <= k < names@.len() ==> #[trigger] names@[k]@ == records@[k].name@,
                record_views(records@).to_multiset() == self.records_of(
                    self.entries().take(i as int),
                ).to_multiset(),
                in_listing_order(record_views(records@)),
        {
            let rec = self.record(&self.processes[i]);
            let key = chars_of(rec.name.as_str());
            let ghost rv = record_views(records@);
            let mut p: usize = 0;
            loop
                invariant
                    p <= records@.len(),
                    records@.len() == names@.len(),
                    rv == record_views(records@),
                    key@ == rec.name@,
                    forall|k: int| 0 <= k < names@.len() ==> #[trigger] names@[k]@ == records@[k].name@,
                    forall|k: int| 0 <= k < p ==> !record_lt(rec@, #[trigger] rv[k]),
                ensures
                    p <= records@.len(),
                    forall|k: int| 0 <= k < p ==> !record_lt(rec@, #[trigger] rv[k]),
                    p == records@.len() || record_lt(rec@, rv[p as int]),
                decreases records@.len() - p,
            {
                if p == records.len() {
                    break;
                }
                if record_less(&rec, &key, &records[p], &names[p]) {
                    break;
                }
                p = p + 1;
            }
            let ghost x = rec@;
            let ghost old_names = names@;
            let ghost old_records = records@;
            records.insert(p, rec);
            names.insert(p, key);
            proof {
                let nv = record_views(records@);
                assert(nv =~= rv.insert(p as int, x));
                assert forall|a: int, b: int| 0 <= a < b < nv.len() implies !record_lt(
                    #[trigger] nv[b],
                    #[trigger] nv[a],
                ) by {
                    if a < p && b == p {
                    } else if a == p && b > p {
                        lemma_record_lt_strict(rv[b - 1], x, rv[p as int]);
                    } else if a < p && b > p {
                        assert(nv[a] == rv[a]);
                        assert(nv[b] == rv[b - 1]);
                    } else if a > p {
                        assert(nv[a] == rv[a - 1]);
                        assert(nv[b] == rv[b - 1]);
                    }
                }
                assert forall|k: int| 0 <= k < names@.len() implies #[trigger] names@[k]@
                    == records@[k].name@ by {
                    if k > p {
                        assert(names@[k] == old_names[k - 1]);
                        assert(records@[k] == old_records[k - 1]);
                    } else if k < p {
                        assert(names@[k] == old_names[k]);
                        assert(records@[k] == old_records[k]);
                    }
                }
                vstd::seq_lib::to_multiset_insert(rv, p as int, x);
                let es = self.entries();
                assert(self.records_of(es.take(i + 1)) =~= self.records_of(es.take(i as int)).push(
                    x,
                ));
                vstd::seq_lib::to_multiset_build(self.records_of(es.take(i as int)), x);
            }
        }
        assert(self.entries().take(self.entries().len() as int) =~= self.entries());
        proof {
            self.lemma_listing_unique(record_views(records@));
        }
        records
    }

    /// Several targets name the processes that each of them names: the
    /// resolution of two lists one after the other is the union of theirs.
    pub proof fn lemma_resolved_concat(
        &self,
        a: Seq<TargetView>,
        b: Seq<TargetView>,
        case_sensitive: bool,
    )
        ensures
            self.resolved(a + b, case_sensitive) == self.resolved(a, case_sensitive)
                + self.resolved(b, case_sensitive),
    {
        self.lemma_hits_concat(a, b, case_sensitive);
        assert(self.resolved(a + b, case_sensitive) =~= self.resolved(a, case_sensitive)
            + self.resolved(b, case_sensitive));
    }

    proof fn lemma_hits_concat(&self, a: Seq<TargetView>, b: Seq<TargetView>, case_sensitive: bool)
        ensures
            self.hits(a + b, case_sensitive) == self.hits(a, case_sensitive) + self.hits(
                b,
                case_sensitive,
            ),
        decreases b.len(),
    {
        if b.len() == 0 {
            assert(a + b =~= a);
            assert(self.hits(a, case_sensitive) + self.hits(b, case_sensitive) =~= self.hits(
                a,
                case_sensitive,
            ));
        } else {
            self.lemma_hits_concat(a, b.drop_last(), case_sensitive);
            assert((a + b).drop_last() =~= a + b.drop_last());
            assert((a + b).last() == b.last());
            assert(self.hits(a + b, case_sensitive) =~= self.hits(a, case_sensitive) + self.hits(
                b,
                case_sensitive,
            ));
        }
    }

    /// In a catalog built from some sockets, a port names exactly the
    /// processes that hold a socket on it, and a process lists exactly the
    /// ports of its sockets.
    pub proof fn lemma_tables_follow_sockets(&self, sockets: Seq<SocketEntry>)
        requires
            pairs(self.port_table()) == socket_pairs(sockets),
            pairs(self.pid_table()) == swapped(pairs(self.port_table())),
        ensures
            forall|port: u16, pid: u32|
                #[trigger] self.holders_of(port).contains(pid) <==> socket_pairs(sockets).contains(
                    (port, pid),
                ),
            forall|port: u16, pid: u32|
                #[trigger] self.ports_of(pid).contains(port) <==> socket_pairs(sockets).contains(
                    (port, pid),
                ),
    {
        assert forall|port: u16, pid: u32|
            #[trigger] self.holders_of(port).contains(pid) <==> socket_pairs(sockets).contains(
                (port, pid),
            ) by {
            assert(pairs(self.port_table()).contains((port, pid)) == (self.port_table().contains_key(
                port,
            ) && self.port_table()[port]@.contains(pid)));
        }
        assert forall|port: u16, pid: u32|
            #[trigger] self.ports_of(pid).contains(port) <==> socket_pairs(sockets).contains(
                (port, pid),
            ) by {
            assert(pairs(self.pid_table()).contains((pid, port)) == (self.pid_table().contains_key(
                pid,
            ) && self.pid_table()[pid]@.contains(port)));
            assert(swapped(pairs(self.port_table())).contains((pid, port)) == pairs(
                self.port_table(),
            ).contains((port, pid)));
        }
    }

    /// A PID target names its process exactly when a process with that PID
    /// is in the snapshot, whatever ports it holds; this process excepted.
    pub proof fn lemma_pid_target_resolves(&self, pid: u32, case_sensitive: bool)
        ensures
            (pid != self.current() && exists|i: int|
                0 <= i < self.entries().len() && #[trigger] self.entries()[i].pid == pid) ==> self.resolved(
                seq![TargetView::Pid(pid)],
                case_sensitive,
            ) == set![pid],
            (pid == self.current() || forall|i: int|
                0 <= i < self.entries().len() ==> #[trigger] self.entries()[i].pid != pid) ==> self.resolved(
                seq![TargetView::Pid(pid)],
                case_sensitive,
            ).is_empty(),
    {
        let t = seq![TargetView::Pid(pid)];
        assert(t.drop_last() =~= Seq::<TargetView>::empty());
        assert(t.last() == TargetView::Pid(pid));
        assert(self.hits(Seq::<TargetView>::empty(), case_sensitive) == Set::<u32>::empty());
        if pid != self.current() && exists|i: int|
            0 <= i < self.entries().len() && #[trigger] self.entries()[i].pid == pid {
            assert(self.resolved(t, case_sensitive) =~= set![pid]);
        } else {
            assert(self.resolved(t, case_sensitive) =~= Set::<u32>::empty());
        }
    }
}

} // verus!
