//! The names of the files of a store: the log and the snapshot in the
//! making stand beside the snapshot, under its name with another extension.

use crate::text::str_eq;
use vstd::prelude::*;

verus! {

/// The extension of the log beside a snapshot with the given extension:
/// `wal`, or `log` where the snapshot itself has `wal`.
pub open spec fn log_extension_of(snapshot: Seq<char>) -> Seq<char> {
    if snapshot == seq!['w', 'a', 'l'] {
        seq!['l', 'o', 'g']
    } else {
        seq!['w', 'a', 'l']
    }
}

/// The extension of the snapshot in the making beside a snapshot with the
/// given extension: `tmp`, or `new` where the snapshot itself has `tmp`.
pub open spec fn partial_extension_of(snapshot: Seq<char>) -> Seq<char> {
    if snapshot == seq!['t', 'm', 'p'] {
        seq!['n', 'e', 'w']
    } else {
        seq!['t', 'm', 'p']
    }
}

/// The three files of a store have three names: the extensions of the log
/// and of the snapshot in the making differ from that of the snapshot and
/// from each other.
pub proof fn lemma_extensions_differ(snapshot: Seq<char>)
    ensures
        log_extension_of(snapshot) != snapshot,
        partial_extension_of(snapshot) != snapshot,
        log_extension_of(snapshot) != partial_extension_of(snapshot),
{
    let log = log_extension_of(snapshot);
    let partial = partial_extension_of(snapshot);
    assert(log[0] == 'l' || log[0] == 'w');
    assert(partial[0] == 'n' || partial[0] == 't');
    if log == snapshot {
        assert(snapshot[0] == 'l');
        assert(seq!['w', 'a', 'l'][0] == 'w');
    }
    if partial == snapshot {
        assert(snapshot[0] == 'n');
        assert(seq!['t', 'm', 'p'][0] == 't');
    }
}

/// The extension of the log beside a snapshot with the extension
/// `snapshot`, which is empty where the snapshot has none.
pub fn log_extension(snapshot: &str) -> (extension: &'static str)
    ensures
        extension@ == log_extension_of(snapshot@),
        extension@ != snapshot@,
{
    proof {
        reveal_strlit("wal");
        reveal_strlit("log");
        assert("wal"@ =~= seq!['w', 'a', 'l']);
        assert("log"@ =~= seq!['l', 'o', 'g']);
        lemma_extensions_differ(snapshot@);
    }
    if str_eq(snapshot, "wal") {
        "log"
    } else {
        "wal"
    }
}

/// The extension of the snapshot in the making beside a snapshot with the
/// extension `snapshot`, which is empty where the snapshot has none.
pub fn partial_extension(snapshot: &str) -> (extension: &'static str)
    ensures
        extension@ == partial_extension_of(snapshot@),
        extension@ != snapshot@,
        extension@ != log_extension_of(snapshot@),
{
    proof {
        reveal_strlit("tmp");
        reveal_strlit("new");
        assert("tmp"@ =~= seq!['t', 'm', 'p']);
        assert("new"@ =~= seq!['n', 'e', 'w']);
        lemma_extensions_differ(snapshot@);
    }
    if str_eq(snapshot, "tmp") {
        "new"
    } else {
        "tmp"
    }
}

} // verus!
