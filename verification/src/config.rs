//! Configuration snapshot: the ordered list of monitor entries.
//!
//! An [`Entry`] binds an executable name to the command lists that run when
//! the executable appears and disappears.  The snapshot is handed in by the
//! caller (the on-disk format is the caller's concern); this module holds the
//! data model and the lookup rules the reconciler and the out-of-band command
//! path rely on.

use vstd::prelude::*;

verus! {

/// One configured monitoring target.
pub struct Entry {
    /// Display identifier; unique by convention, not enforced.
    pub game_name: String,
    /// Process image name matched (case-insensitively) against the process table.
    pub executable: String,
    /// Commands run, in order, when the executable is first detected.
    pub start_commands: Vec<String>,
    /// Commands run, in order, when the executable disappears.
    pub end_commands: Vec<String>,
}

/// The configuration snapshot: entries in file order.
pub struct Config {
    pub entries: Vec<Entry>,
}

impl Default for Entry {
    fn default() -> (e: Entry)
        ensures
            e.game_name@ == Seq::<char>::empty(),
            e.executable@ == Seq::<char>::empty(),
            e.start_commands@ == Seq::<String>::empty(),
            e.end_commands@ == Seq::<String>::empty(),
    {
        Entry {
            game_name: String::new(),
            executable: String::new(),
            start_commands: Vec::new(),
            end_commands: Vec::new(),
        }
    }
}

impl Default for Config {
    fn default() -> (c: Config)
        ensures
            c.entries@ == Seq::<Entry>::empty(),
    {
        Config { entries: Vec::new() }
    }
}

impl Config {
    /// Index of the first entry named `name`, or `None` when no entry matches.
    ///
    /// The tray / out-of-band path asks for an entry by display name; the
    /// first entry in file order wins when names repeat.
    pub fn find_entry_by_name(&self, name: &str) -> (r: Option<usize>)
        ensures
            match r {
                Some(i) => {
                    &&& 0 <= i < self.entries@.len()
                    &&& self.entries@[i as int].game_name@ == name@
                    &&& forall|j: int| 0 <= j < i ==> self.entries@[j].game_name@ != name@
                },
                None => forall|j: int|
                    0 <= j < self.entries@.len() ==> self.entries@[j].game_name@ != name@,
            },
    {
        let wanted: String = name.to_owned();
        let mut i: usize = 0;
        while i < self.entries.len()
            invariant
                0 <= i <= self.entries@.len(),
                wanted@ == name@,
                forall|j: int| 0 <= j < i ==> self.entries@[j].game_name@ != name@,
            decreases self.entries@.len() - i,
        {
            if self.entries[i].game_name == wanted {
                return Some(i);
            }
            i = i + 1;
        }
        None
    }
}

} // verus!
