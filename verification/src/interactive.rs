//! The lines of the interactive picker, and the processes that a selection
//! of them stands for.

use std::collections::BTreeSet;
use vstd::prelude::*;
use vstd::std_specs::iter::IteratorSpec;

use crate::process::{ProcessRecord, RecordView};
use crate::text::{chars_of, decimal, join, pad_right, push_decimal, push_padded, push_str, string_from, string_of};

verus! {

broadcast use vstd::std_specs::btree::group_btree_axioms;

/// `value` cut to `width` characters; when it is longer than `width` (and
/// `width` is more than 1), its last kept character becomes `~`.
pub open spec fn truncated(value: Seq<char>, width: nat) -> Seq<char> {
    if value.len() <= width {
        value
    } else if width > 1 {
        value.take(width - 1).push('~')
    } else {
        value.take(width as int)
    }
}

/// `value` cut to `width` characters (see `truncated`).
pub fn truncate(value: &str, width: usize) -> (r: String)
    ensures
        r@ == truncated(value@, width as nat),
        r@.len() <= width,
{
    let chars = chars_of(value);
    if chars.len() <= width {
        return string_from(&chars);
    }
    let keep = if width > 1 {
        width - 1
    } else {
        width
    };
    let mut kept: Vec<char> = Vec::new();
    for i in 0..keep
        invariant
            keep <= width < chars@.len(),
            kept@ == chars@.take(i as int),
    {
        kept.push(chars[i]);
        assert(chars@.take(i + 1) == chars@.take(i as int).push(chars@[i as int]));
    }
    if width > 1 {
        kept.push('~');
    }
    string_from(&kept)
}

/// The sequence is strictly increasing.
pub open spec fn increasing(s: Seq<u16>) -> bool {
    forall|i: int, j: int| 0 <= i < j < s.len() ==> s[i] < s[j]
}

/// The elements of a finite set of ports in increasing order.
pub open spec fn ascending(ports: Set<u16>) -> Seq<u16> {
    choose|s: Seq<u16>| increasing(s) && s.to_set() == ports
}

/// Two increasing sequences with the same elements are equal.
pub proof fn lemma_increasing_unique(a: Seq<u16>, b: Seq<u16>)
    requires
        increasing(a),
        increasing(b),
        a.to_set() == b.to_set(),
    ensures
        a == b,
    decreases a.len(),
{
    if a.len() == 0 {
        if b.len() > 0 {
            assert(b.to_set().contains(b[0]));
        }
        assert(a =~= b);
    } else {
        assert(a.to_set().contains(a[0]));
        assert(b.len() > 0);
        assert(b.to_set().contains(b[0]));
        let i = choose|i: int| 0 <= i < b.len() && b[i] == a[0];
        let j = choose|j: int| 0 <= j < a.len() && a[j] == b[0];
        assert(a[0] == b[0]) by {
            if i > 0 {
                assert(b[0] < b[i]);
            }
            if j > 0 {
                assert(a[0] < a[j]);
            }
        }
        let ta = a.drop_first();
        let tb = b.drop_first();
        assert(ta.to_set() =~= tb.to_set()) by {
            assert forall|x: u16| ta.to_set().contains(x) implies tb.to_set().contains(x) by {
                let k = choose|k: int| 0 <= k < ta.len() && ta[k] == x;
                assert(a[k + 1] == x);
                assert(b.to_set().contains(x));
                let m = choose|m: int| 0 <= m < b.len() && b[m] == x;
                if m == 0 {
                    assert(a[0] < a[k + 1]);
                }
                assert(tb[m - 1] == x);
            }
            assert forall|x: u16| tb.to_set().contains(x) implies ta.to_set().contains(x) by {
                let k = choose|k: int| 0 <= k < tb.len() && tb[k] == x;
                assert(b[k + 1] == x);
                assert(a.to_set().contains(x));
                let m = choose|m: int| 0 <= m < a.len() && a[m] == x;
                if m == 0 {
                    assert(b[0] < b[k + 1]);
                }
                assert(ta[m - 1] == x);
            }
        }
        lemma_increasing_unique(ta, tb);
        assert(ta.len() == tb.len());
        assert(b.len() == a.len());
        assert(a =~= b) by {
            assert forall|k: int| 0 <= k < a.len() implies a[k] == b[k] by {
                if k > 0 {
                    assert(a[k] == ta[k - 1]);
                    assert(b[k] == tb[k - 1]);
                }
            }
        }
    }
}

/// The ports as `:port` items joined with commas.
pub open spec fn port_list(ports: Seq<u16>) -> Seq<char> {
    join(ports.map_values(|p: u16| ":"@ + decimal(p as nat)), ","@)
}

/// The ports column: the port list, or `-` when there are none.
pub open spec fn ports_column(ports: Seq<u16>) -> Seq<char> {
    if ports.len() == 0 {
        "-"@
    } else {
        port_list(ports)
    }
}

/// The picker line of a process: its PID padded to 7 characters, its name
/// cut and padded to 24, then its ports; in verbose mode, when it has a
/// command line, the ports padded to 14 and then the command line.
pub open spec fn listing_line(record: RecordView, ports: Seq<u16>, verbose: bool) -> Seq<char> {
    let head = pad_right(decimal(record.pid as nat), 7) + " "@ + pad_right(
        truncated(record.name, 24),
        24,
    ) + " "@;
    if verbose && record.cmd.len() > 0 {
        head + pad_right(ports_column(ports), 14) + " "@ + record.cmd
    } else {
        head + ports_column(ports)
    }
}

/// In verbose mode a process with a command line gets the long layout,
/// whatever its ports (none included): the line ends with a space and the
/// command line, after the ports column padded to 14; otherwise the line
/// ends with the ports column.
pub proof fn lemma_verbose_layout(record: RecordView, ports: Seq<u16>, verbose: bool)
    ensures
        ({
            let line = listing_line(record, ports, verbose);
            let head = pad_right(decimal(record.pid as nat), 7) + " "@ + pad_right(
                truncated(record.name, 24),
                24,
            ) + " "@;
            &&& verbose && record.cmd.len() > 0 ==> line == head + pad_right(
                ports_column(ports),
                14,
            ) + " "@ + record.cmd
            &&& verbose && record.cmd.len() > 0 ==> line.skip(line.len() - record.cmd.len())
                == record.cmd
            &&& !(verbose && record.cmd.len() > 0) ==> line == head + ports_column(ports)
        }),
{
    let line = listing_line(record, ports, verbose);
    if verbose && record.cmd.len() > 0 {
        let head = pad_right(decimal(record.pid as nat), 7) + " "@ + pad_right(
            truncated(record.name, 24),
            24,
        ) + " "@;
        let front = head + pad_right(ports_column(ports), 14) + " "@;
        assert(line == front + record.cmd);
        assert(line.skip(line.len() - record.cmd.len()) =~= record.cmd);
    }
}

fn ports_text(ports: &BTreeSet<u16>) -> (r: String)
    ensures
        r@ == ports_column(ascending(ports@)),
{
    let ghost raw = vstd::std_specs::btree::spec_btree_keys_iter(ports).remaining();
    let ghost list = raw.unref();
    proof {
        lemma_port_keys(ports);
    }
    let ghost items = list.map_values(|p: u16| ":"@ + decimal(p as nat));
    let mut r = String::new();
    let mut first = true;
    for p in it: ports.iter()
        invariant
            first == (it.index() == 0),
            it.seq() == raw,
            list == raw.unref(),
            items == list.map_values(|p: u16| ":"@ + decimal(p as nat)),
            r@ == join(items.take(it.index()), ","@),
    {
        let ghost before = r@;
        if !first {
            push_str(&mut r, ",");
        }
        first = false;
        push_str(&mut r, ":");
        push_decimal(&mut r, *p as u64);
        proof {
            let i = it.index();
            assert(items.take(i + 1).drop_last() == items.take(i));
            assert(items[i] == ":"@ + decimal(*p as nat));
            if i > 0 {
                assert(r@ =~= before + ","@ + items[i]);
            } else {
                assert(r@ =~= items.take(1)[0]);
            }
        }
    }
    assert(items.take(items.len() as int) == items);
    if ports.is_empty() {
        assert(list.len() == 0) by {
            if list.len() > 0 {
                assert(list.to_set().contains(list[0]));
            }
        }
        return string_of("-");
    }
    assert(list.len() > 0) by {
        let x = ports@.choose();
        assert(list.to_set().contains(x));
    }
    r
}

/// A set of ports lists its elements in increasing order.
proof fn lemma_port_keys(ports: &BTreeSet<u16>)
    ensures
        vstd::std_specs::btree::spec_btree_keys_iter(ports).remaining().unref() == ascending(
            ports@,
        ),
{
    let raw = vstd::std_specs::btree::spec_btree_keys_iter(ports).remaining();
    let list = raw.unref();
    assert(vstd::laws_cmp::obeys_cmp::<u16>());
    assert(vstd::laws_cmp::obeys_cmp::<&u16>());
    assert(vstd::std_specs::btree::increasing_seq(raw));
    vstd::std_specs::btree::axiom_increasing_seq_meaning::<&u16>(raw);
    assert forall|i: int, j: int| 0 <= i < j < list.len() implies list[i] < list[j] by {
        assert(vstd::std_specs::cmp::OrdSpec::cmp_spec(&raw[i], &raw[j]) is Less);
    }
    assert(list.to_set() == ports@);
    lemma_increasing_unique(list, ascending(ports@));
}

/// The picker line of a process (see `listing_line`), its ports in
/// increasing order.
pub fn format_record(record: &ProcessRecord, verbose: bool) -> (r: String)
    ensures
        r@ == listing_line(record@, ascending(record.ports@), verbose),
{
    let ports = ports_text(&record.ports);
    let mut pid_text = String::new();
    push_decimal(&mut pid_text, record.pid as u64);
    let name = truncate(record.name.as_str(), 24);
    let mut r = String::new();
    push_padded(&mut r, pid_text.as_str(), 7);
    push_str(&mut r, " ");
    push_padded(&mut r, name.as_str(), 24);
    push_str(&mut r, " ");
    if verbose && record.cmd.as_str().unicode_len() > 0 {
        push_padded(&mut r, ports.as_str(), 14);
        push_str(&mut r, " ");
        push_str(&mut r, record.cmd.as_str());
    } else {
        push_str(&mut r, ports.as_str());
    }
    assert(pid_text@ =~= decimal(record.pid as nat));
    r
}

/// The picker lines of the processes, one for each, in order.
pub fn menu_items(records: &Vec<ProcessRecord>, verbose: bool) -> (r: Vec<String>)
    ensures
        r@.len() == records@.len(),
        forall|i: int|
            0 <= i < records@.len() ==> #[trigger] r@[i]@ == listing_line(
                records@[i]@,
                ascending(records@[i].ports@),
                verbose,
            ),
{
    let mut r: Vec<String> = Vec::new();
    for i in 0..records.len()
        invariant
            r@.len() == i,
            forall|k: int|
                0 <= k < i ==> #[trigger] r@[k]@ == listing_line(
                    records@[k]@,
                    ascending(records@[k].ports@),
                    verbose,
                ),
    {
        r.push(format_record(&records[i], verbose));
    }
    r
}

/// The picker opens only when there is a process to pick; with none, the
/// selection is empty without asking.
pub fn picker_needed(records: &Vec<ProcessRecord>) -> (r: bool)
    ensures
        r == (records@.len() > 0),
{
    records.len() > 0
}

/// The processes of the picked lines; none when the picker was closed
/// without a choice.
pub open spec fn picked(records: Seq<ProcessRecord>, selection: Option<Seq<usize>>) -> Set<u32> {
    match selection {
        None => Set::empty(),
        Some(chosen) => Set::new(
            |pid: u32|
                exists|k: int|
                    0 <= k < chosen.len() && #[trigger] records[chosen[k] as int].pid == pid,
        ),
    }
}

/// The processes of the picked lines (see `picked`).
pub fn selected_pids(records: &Vec<ProcessRecord>, selection: Option<Vec<usize>>) -> (r: BTreeSet<
    u32,
>)
    requires
        selection matches Some(chosen) ==> forall|k: int|
            0 <= k < chosen@.len() ==> #[trigger] chosen@[k] < records@.len(),
    ensures
        r@ == picked(
            records@,
            match selection {
                Some(chosen) => Some(chosen@),
                None => None,
            },
        ),
{
    let mut r: BTreeSet<u32> = BTreeSet::new();
    match selection {
        None => {
            assert(r@ =~= Set::empty());
            r
        },
        Some(chosen) => {
            for i in 0..chosen.len()
                invariant
                    forall|k: int| 0 <= k < chosen@.len() ==> #[trigger] chosen@[k] < records@.len(),
                    r@ == Set::new(
                        |pid: u32|
                            exists|k: int|
                                0 <= k < i && #[trigger] records@[chosen@[k] as int].pid == pid,
                    ),
            {
                let index = chosen[i];
                r.insert(records[index].pid);
                assert(r@ =~= Set::new(
                    |pid: u32|
                        exists|k: int|
                            0 <= k < i + 1 && #[trigger] records@[chosen@[k] as int].pid == pid,
                )) by {
                    assert(records@[chosen@[i as int] as int].pid == records@[index as int].pid);
                }
            }
            assert(r@ =~= picked(records@, Some(chosen@)));
            r
        },
    }
}

} // verus!
