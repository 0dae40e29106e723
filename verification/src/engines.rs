//! The storage-engine abstraction, and the rule by which a server run
//! picks its engine.
use vstd::prelude::*;

use crate::error::Error;
use crate::kvstore::KvStore;

verus! {

/// A key-value storage engine: `set` asserts a mapping, `get` reads it,
/// `remove` erases it and fails exactly on absent keys.  Implementors
/// state their invariant and their contents as a map.
pub trait KvsEngine: Sized {
    /// The engine's internal invariant.
    spec fn inv(&self) -> bool;

    /// The engine's contents as a key-value map.
    spec fn kv(&self) -> Map<Seq<char>, Seq<char>>;

    /// Set the value of a key.
    fn set(&mut self, key: String, value: String) -> (r: Result<(), Error>)
        requires
            old(self).inv(),
        ensures
            final(self).inv(),
            r is Ok ==> final(self).kv() == old(self).kv().insert(key@, value@),
            r is Err ==> final(self).kv() == old(self).kv(),
    ;

    /// Get the value of a key, `None` for an absent key.
    fn get(&self, key: String) -> (r: Result<Option<String>, Error>)
        requires
            self.inv(),
        ensures
            match r {
                Ok(Some(v)) => self.kv().contains_key(key@) && v@ == self.kv()[key@],
                Ok(None) => !self.kv().contains_key(key@),
                Err(_) => true,
            },
    ;

    /// Remove a key; fails with [`Error::KeyNotFound`] exactly when the
    /// key has no mapping.
    fn remove(&mut self, key: String) -> (r: Result<(), Error>)
        requires
            old(self).inv(),
        ensures
            final(self).inv(),
            r is Ok ==> old(self).kv().contains_key(key@) && final(self).kv() == old(self).kv().remove(
                key@,
            ),
            !old(self).kv().contains_key(key@) ==> (r matches Err(Error::KeyNotFound))
                && final(self).kv() == old(self).kv(),
    ;
}

impl KvsEngine for KvStore {
    open spec fn inv(&self) -> bool {
        self.wf()
    }

    open spec fn kv(&self) -> Map<Seq<char>, Seq<char>> {
        self@
    }

    fn set(&mut self, key: String, value: String) -> (r: Result<(), Error>) {
        KvStore::set(self, key, value)
    }

    fn get(&self, key: String) -> (r: Result<Option<String>, Error>) {
        KvStore::get(self, key)
    }

    fn remove(&mut self, key: String) -> (r: Result<(), Error>) {
        KvStore::remove(self, key)
    }
}

/// The storage engines a server can run: the library's own log-structured
/// store, or an embedded-database back-end a surrounding tool may offer.
#[derive(Debug, Clone, Copy, PartialEq, Eq, Structural)]
pub enum EngineKind {
    Kvs,
    Jammdb,
}

/// An ASCII letter lowered; any other character unchanged.
pub open spec fn lower_char(c: char) -> char {
    if 'A' as u32 <= c as u32 && c as u32 <= 'Z' as u32 {
        (((c as u32) + 32) as u8) as char
    } else {
        c
    }
}

/// A string with its ASCII letters lowered.
pub open spec fn lower_ascii(s: Seq<char>) -> Seq<char> {
    s.map_values(|c: char| lower_char(c))
}

/// The engine denoted by the contents of the `engine` marker file: the
/// engine names are matched without regard to ASCII case.
pub open spec fn spec_parse_engine(s: Seq<char>) -> Option<EngineKind> {
    if lower_ascii(s) == "kvs"@ {
        Some(EngineKind::Kvs)
    } else if lower_ascii(s) == "jammdb"@ {
        Some(EngineKind::Jammdb)
    } else {
        None
    }
}

/// The name recorded in the `engine` marker file.
pub open spec fn spec_engine_name(e: EngineKind) -> Seq<char> {
    match e {
        EngineKind::Kvs => "Kvs"@,
        EngineKind::Jammdb => "Jammdb"@,
    }
}

/// Lower one ASCII letter.
fn to_lower(c: char) -> (r: char)
    ensures
        r == lower_char(c),
{
    let v = c as u32;
    if 'A' as u32 <= v && v <= 'Z' as u32 {
        ((v + 32) as u8) as char
    } else {
        c
    }
}

/// Parse an engine name read from the `engine` marker file, matching the
/// engine names without regard to ASCII case.
pub fn parse_engine_name(s: &str) -> (r: Option<EngineKind>)
    ensures
        r == spec_parse_engine(s@),
{
    proof {
        reveal_strlit("kvs");
        reveal_strlit("jammdb");
        assert(lower_ascii(s@).len() == s@.len());
    }
    let n = s.unicode_len();
    if n == 3 {
        let c0 = to_lower(s.get_char(0));
        let c1 = to_lower(s.get_char(1));
        let c2 = to_lower(s.get_char(2));
        proof {
            assert(lower_ascii(s@)[0] == lower_char(s@[0]));
            assert(lower_ascii(s@)[1] == lower_char(s@[1]));
            assert(lower_ascii(s@)[2] == lower_char(s@[2]));
        }
        if c0 == 'k' && c1 == 'v' && c2 == 's' {
            proof {
                assert(lower_ascii(s@) =~= "kvs"@);
            }
            Some(EngineKind::Kvs)
        } else {
            proof {
                if lower_ascii(s@) == "kvs"@ {
                    assert(false);
                }
                assert(lower_ascii(s@) != "jammdb"@);
            }
            None
        }
    } else if n == 6 {
        let c0 = to_lower(s.get_char(0));
        let c1 = to_lower(s.get_char(1));
        let c2 = to_lower(s.get_char(2));
        let c3 = to_lower(s.get_char(3));
        let c4 = to_lower(s.get_char(4));
        let c5 = to_lower(s.get_char(5));
        proof {
            assert(lower_ascii(s@)[0] == lower_char(s@[0]));
            assert(lower_ascii(s@)[1] == lower_char(s@[1]));
            assert(lower_ascii(s@)[2] == lower_char(s@[2]));
            assert(lower_ascii(s@)[3] == lower_char(s@[3]));
            assert(lower_ascii(s@)[4] == lower_char(s@[4]));
            assert(lower_ascii(s@)[5] == lower_char(s@[5]));
        }
        if c0 == 'j' && c1 == 'a' && c2 == 'm' && c3 == 'm' && c4 == 'd' && c5 == 'b' {
            proof {
                assert(lower_ascii(s@) =~= "jammdb"@);
            }
            Some(EngineKind::Jammdb)
        } else {
            proof {
                if lower_ascii(s@) == "jammdb"@ {
                    assert(false);
                }
                assert(lower_ascii(s@) != "kvs"@);
            }
            None
        }
    } else {
        proof {
            assert(lower_ascii(s@) != "kvs"@ && lower_ascii(s@) != "jammdb"@);
        }
        None
    }
}

/// The name to record in the `engine` marker file.
pub fn engine_name(e: EngineKind) -> (r: String)
    ensures
        r@ == spec_engine_name(e),
{
    match e {
        EngineKind::Kvs => String::from_str("Kvs"),
        EngineKind::Jammdb => String::from_str("Jammdb"),
    }
}

/// The engine-selection rule.  With no engine recorded and none
/// requested, the default engine is used; a recorded engine is kept when
/// none is requested; a requested engine that disagrees with the recorded
/// one is refused.
pub open spec fn spec_select_engine(
    current: Option<EngineKind>,
    requested: Option<EngineKind>,
) -> Option<EngineKind> {
    match (current, requested) {
        (None, None) => Some(EngineKind::Kvs),
        (None, Some(r)) => Some(r),
        (Some(c), None) => Some(c),
        (Some(c), Some(r)) => if c == r {
            Some(r)
        } else {
            None
        },
    }
}

/// Decide which engine a server run uses, from the engine recorded in the
/// `engine` marker file and the engine requested on the command line.
/// `None` means the request disagrees with the record and the server must
/// refuse to start.
pub fn select_engine(current: Option<EngineKind>, requested: Option<EngineKind>) -> (r: Option<
    EngineKind,
>)
    ensures
        r == spec_select_engine(current, requested),
{
    match (current, requested) {
        (None, None) => Some(EngineKind::Kvs),
        (None, Some(req)) => Some(req),
        (Some(cur), None) => Some(cur),
        (Some(cur), Some(req)) => if cur == req {
            Some(req)
        } else {
            None
        },
    }
}

/// Recording an engine's name and reading it back selects the same
/// engine.
pub proof fn lemma_engine_name_roundtrip(e: EngineKind)
    ensures
        spec_parse_engine(spec_engine_name(e)) == Some(e),
{
    reveal_strlit("Kvs");
    reveal_strlit("kvs");
    reveal_strlit("Jammdb");
    reveal_strlit("jammdb");
    match e {
        EngineKind::Kvs => {
            assert(lower_ascii("Kvs"@)[0] == lower_char('K'));
            assert(lower_ascii("Kvs"@)[1] == lower_char('v'));
            assert(lower_ascii("Kvs"@)[2] == lower_char('s'));
            assert(lower_ascii("Kvs"@) =~= "kvs"@);
        }
        EngineKind::Jammdb => {
            assert(lower_ascii("Jammdb"@).len() == 6);
            assert(lower_ascii("Jammdb"@) != "kvs"@);
            assert(lower_ascii("Jammdb"@)[0] == lower_char('J'));
            assert(lower_ascii("Jammdb"@)[1] == lower_char('a'));
            assert(lower_ascii("Jammdb"@)[2] == lower_char('m'));
            assert(lower_ascii("Jammdb"@)[3] == lower_char('m'));
            assert(lower_ascii("Jammdb"@)[4] == lower_char('d'));
            assert(lower_ascii("Jammdb"@)[5] == lower_char('b'));
            assert(lower_ascii("Jammdb"@) =~= "jammdb"@);
        }
    }
}

} // verus!
