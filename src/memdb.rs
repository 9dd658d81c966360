use crate::byteview::ByteView;
use crate::dbgetter::DbGetter;
use vstd::prelude::*;
use vstd::string::StringExecFns;
use vstd::utf8::encode_utf8;

verus! {

/// The error for a key that a table does not hold.
pub open spec fn no_such_key(key: Seq<char>) -> Seq<char> {
    "No such key: "@ + key
}

/// A table is `(key, value)` rows; the database is `(group, table)` pairs.
pub type Table = Vec<(String, String)>;

/// An in-memory backing store: for each group name, rows of key and value.
pub struct HashMapDbGetter {
    db: Vec<(String, Table)>,
}

impl HashMapDbGetter {
    pub closed spec fn spec_db(&self) -> Seq<(String, Table)> {
        self.db@
    }

    /// The first position at or after `from` of a group named `g`, or the
    /// length when there is none.
    pub open spec fn group_pos(&self, g: Seq<char>) -> int {
        if exists|i: int| 0 <= i < self.spec_db().len() && #[trigger] self.spec_db()[i].0@ == g {
            choose|i: int|
                0 <= i < self.spec_db().len() && self.spec_db()[i].0@ == g && forall|j: int|
                    0 <= j < i ==> #[trigger] self.spec_db()[j].0@ != g
        } else {
            self.spec_db().len() as int
        }
    }

    pub fn new(db: Vec<(String, Table)>) -> (r: Self)
        ensures
            r.spec_db() == db@,
    {
        HashMapDbGetter { db }
    }

    fn find_row(table: &Table, key: &String) -> (r: Option<usize>)
        ensures
            match r {
                Some(i) => i < table@.len() && table@[i as int].0@ == key@ && forall|j: int|
                    0 <= j < i ==> #[trigger] table@[j].0@ != key@,
                None => forall|j: int| 0 <= j < table@.len() ==> #[trigger] table@[j].0@ != key@,
            },
    {
        let mut i: usize = 0;
        while i < table.len()
            invariant
                i <= table@.len(),
                forall|j: int| 0 <= j < i ==> #[trigger] table@[j].0@ != key@,
            decreases table@.len() - i,
        {
            if table[i].0 == *key {
                return Some(i);
            }
            i = i + 1;
        }
        None
    }

    /// The value stored under `key` in the first table named `group_name`,
    /// as its UTF-8 bytes; the first matching row wins.
    /// What `lookup` gives for `key` of group `group`.
    pub open spec fn lookup_post(
        &self,
        group: Seq<char>,
        key: Seq<char>,
        r: Result<ByteView, String>,
    ) -> bool {
        &&& self.group_pos(group) == self.spec_db().len() ==> r is Err && r->Err_0@
            == crate::groupmanager::no_such_group(group)
        &&& self.group_pos(group) < self.spec_db().len() ==> {
            let t = self.spec_db()[self.group_pos(group)].1@;
            match r {
                Ok(v) => exists|i: int|
                    0 <= i < t.len() && t[i].0@ == key && v@ == encode_utf8(t[i].1@)
                        && forall|j: int| 0 <= j < i ==> #[trigger] t[j].0@ != key,
                Err(e) => e@ == no_such_key(key) && forall|j: int|
                    0 <= j < t.len() ==> #[trigger] t[j].0@ != key,
            }
        }
    }

    pub fn lookup(&self, group_name: &str, key: &str) -> (r: Result<ByteView, String>)
        ensures
            self.lookup_post(group_name@, key@, r),
    {
        let g = String::from_str(group_name);
        let k = String::from_str(key);
        let mut i: usize = 0;
        while i < self.db.len()
            invariant
                g@ == group_name@,
                k@ == key@,
                i <= self.db@.len(),
                forall|j: int| 0 <= j < i ==> #[trigger] self.db@[j].0@ != group_name@,
            decreases self.db@.len() - i,
        {
            if self.db[i].0 == g {
                proof {
                    assert(self.spec_db()[i as int].0@ == group_name@);
                    let p = self.group_pos(group_name@);
                    assert(self.spec_db()[p].0@ == group_name@);
                    if p < i {
                    } else if p > i {
                        assert(self.spec_db()[i as int].0@ != group_name@);
                    }
                    assert(p == i);
                }
                let table = &self.db[i].1;
                let found = Self::find_row(table, &k);
                assert(table@ == self.spec_db()[i as int].1@);
                return match found {
                    Some(row) => Ok(ByteView::from_string(table[row].1.clone())),
                    None => {
                        let ghost t = self.spec_db()[i as int].1@;
                        assert forall|j: int| 0 <= j < t.len() implies #[trigger] t[j].0@ != key@ by {
                            assert(table@[j].0@ != k@);
                        }
                        let prefix = String::from_str("No such key: ");
                        proof {
                            reveal_strlit("No such key: ");
                        }
                        Err(prefix.concat(key))
                    },
                };
            }
            i = i + 1;
        }
        assert(!exists|j: int|
            0 <= j < self.spec_db().len() && #[trigger] self.spec_db()[j].0@ == group_name@) by {
            assert forall|j: int| 0 <= j < self.spec_db().len() implies #[trigger] self.spec_db()[j].0@
                != group_name@ by {
                assert(self.db@[j].0@ != group_name@);
            }
        }
        let prefix = String::from_str("No such group: ");
        proof {
            reveal_strlit("No such group: ");
        }
        Err(prefix.concat(group_name))
    }
}

impl DbGetter for HashMapDbGetter {
    open spec fn answers(&self, group: Seq<char>, key: Seq<char>, r: Result<ByteView, String>) -> bool {
        self.lookup_post(group, key, r)
    }

    fn get_data(&self, group_name: &str, key: &str) -> (r: Result<ByteView, String>) {
        self.lookup(group_name, key)
    }
}

} // verus!
