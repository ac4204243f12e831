use vstd::prelude::*;

use crate::table::EnvTable;
use crate::text::{chars_of, config_of, config_of_text, find_from, idx_of, lemma_idx_of, lines_of, split_line};

verus! {

/// The environment after a load of `content` into `env`: each key of the file
/// takes its value from the file, every other variable keeps its own.
pub open spec fn env_after(env: Map<Seq<char>, Seq<char>>, content: Seq<char>) -> Map<
    Seq<char>,
    Seq<char>,
> {
    env.union_prefer_right(config_of_text(content))
}

/// The texts of a sequence of strings.
pub open spec fn key_views(v: Seq<String>) -> Seq<Seq<char>> {
    v.map_values(|s: String| s@)
}

/// The mapping that a dotenv text describes, as a table.
pub fn config_from_text(content: &str) -> (r: EnvTable)
    ensures
        r.wf(),
        r@ == config_of_text(content@),
{
    let cs = chars_of(content);
    let n = cs.len();
    let mut table = EnvTable::new();
    let mut start: usize = 0;
    let ghost mut done: Seq<Seq<char>> = Seq::empty();
    assert(content@.skip(0) =~= content@);
    loop
        invariant
            start <= n == cs@.len(),
            cs@ == content@,
            done + lines_of(content@.skip(start as int)) == lines_of(content@),
            table.wf(),
            table@ == config_of(done),
        decreases n - start,
    {
        let e = find_from(&cs, '\n', start, n);
        let line = content.substring_char(start, e);
        proof {
            let rest = content@.skip(start as int);
            assert forall|j: int| 0 <= j < e - start implies rest[j] != '\n' by {
                assert(rest[j] == content@[j + start]);
            }
            if e < n {
                assert(rest[e - start] == content@[e as int]);
            }
            lemma_idx_of(rest, '\n', e - start);
            assert(rest.take(e - start) =~= line@);
            if e < n {
                assert(rest.skip(e - start + 1) =~= content@.skip(e + 1));
                assert(lines_of(rest) == seq![line@] + lines_of(content@.skip(e + 1)));
            } else {
                assert(rest =~= line@);
                assert(lines_of(rest) == seq![line@]);
            }
        }
        if let Some((k, v)) = split_line(line) {
            table.set(k, v);
        }
        proof {
            let old_done = done;
            done = done.push(line@);
            assert(done.drop_last() =~= old_done);
            if e < n {
                assert(done + lines_of(content@.skip(e + 1)) =~= old_done + lines_of(
                    content@.skip(start as int),
                ));
            } else {
                assert(done =~= old_done + lines_of(content@.skip(start as int)));
            }
        }
        if e == n {
            return table;
        }
        start = e + 1;
    }
}

/// Loads dotenv text into an environment table and records which keys it set.
pub struct Parser {
    /// The mapping read by the last successful load.
    pub env_vars: EnvTable,
    /// The keys that the last successful load wrote into the environment.
    pub set_variables: Vec<String>,
}

impl Parser {
    /// The parser's mapping is a well-formed table.
    pub open spec fn wf(&self) -> bool {
        self.env_vars.wf()
    }

    /// The mapping read by the last successful load.
    pub open spec fn config(&self) -> Map<Seq<char>, Seq<char>> {
        self.env_vars@
    }

    /// A parser that has read nothing yet.
    pub fn new() -> (r: Parser)
        ensures
            r.wf(),
            r.config() == Map::<Seq<char>, Seq<char>>::empty(),
            r.set_variables@.len() == 0,
    {
        Parser { env_vars: EnvTable::new(), set_variables: Vec::new() }
    }

    /// Takes the outcome of reading a dotenv file. On a read error nothing
    /// changes and the error is handed back. Otherwise every pair of the text
    /// is written into `env`, and `set_variables` becomes exactly the keys
    /// written by this call.
    pub fn parse<E>(&mut self, read: Result<String, E>, env: &mut EnvTable) -> (r: Result<(), E>)
        requires
            old(self).wf(),
            old(env).wf(),
        ensures
            final(self).wf(),
            final(env).wf(),
            match read {
                Ok(content) => {
                    &&& r is Ok
                    &&& final(self).config() == config_of_text(content@)
                    &&& final(env)@ == env_after(old(env)@, content@)
                    &&& key_views(final(self).set_variables@).no_duplicates()
                    &&& key_views(final(self).set_variables@).to_set() == config_of_text(
                        content@,
                    ).dom()
                },
                Err(e) => {
                    &&& r == Err::<(), E>(e)
                    &&& *final(self) == *old(self)
                    &&& *final(env) == *old(env)
                },
            },
    {
        match read {
            Err(e) => Err(e),
            Ok(content) => {
                self.env_vars = config_from_text(&content);
                self.set_variables = Vec::new();
                let ghost cfg = self.env_vars@;
                let ghost env0 = env@;
                let entries = self.env_vars.entries();
                let n = entries.len();
                let mut keys: Vec<String> = Vec::new();
                for i in 0..n
                    invariant
                        n == entries@.len(),
                        env.wf(),
                        self.env_vars@ == cfg,
                        entries@ == self.env_vars.entry_seq(),
                        forall|a: int, b: int|
                            0 <= a < b < entries@.len() ==> entries@[a].0@ != entries@[b].0@,
                        forall|a: int|
                            0 <= a < entries@.len() ==> cfg.contains_key(#[trigger] entries@[a].0@)
                                && cfg[entries@[a].0@] == entries@[a].1@,
                        forall|k: Seq<char>|
                            #[trigger] cfg.contains_key(k) ==> exists|a: int|
                                0 <= a < entries@.len() && entries@[a].0@ == k,
                        keys@.len() == i,
                        forall|a: int| 0 <= a < i ==> #[trigger] keys@[a]@ == entries@[a].0@,
                        env@ == env0.union_prefer_right(
                            cfg.restrict(key_views(keys@).to_set()),
                        ),
                {
                    let k = entries[i].0.clone();
                    let v = entries[i].1.clone();
                    env.set(k.clone(), v);
                    let ghost before = keys@;
                    keys.push(k);
                    proof {
                        let kv = entries@[i as int].0@;
                        assert(cfg.contains_key(kv));
                        assert(key_views(keys@) =~= key_views(before).push(kv));
                        assert(key_views(keys@).to_set() =~= key_views(before).to_set().insert(kv))
                            by {
                            assert forall|x: Seq<char>|
                                key_views(keys@).to_set().contains(x) implies key_views(
                                before,
                            ).to_set().insert(kv).contains(x) by {
                                let j = choose|j: int|
                                    0 <= j < key_views(keys@).len() && key_views(keys@)[j] == x;
                                if j < before.len() {
                                    assert(key_views(before)[j] == x);
                                }
                            }
                            assert forall|x: Seq<char>|
                                key_views(before).to_set().insert(kv).contains(x) implies key_views(
                                keys@,
                            ).to_set().contains(x) by {
                                if x == kv {
                                    assert(key_views(keys@)[i as int] == x);
                                } else {
                                    let j = choose|j: int|
                                        0 <= j < key_views(before).len() && key_views(before)[j]
                                            == x;
                                    assert(key_views(keys@)[j] == x);
                                }
                            }
                        }
                        assert(env@ =~= env0.union_prefer_right(
                            cfg.restrict(key_views(keys@).to_set()),
                        ));
                    }
                }
                proof {
                    let kvs = key_views(keys@);
                    assert(kvs.to_set() =~= cfg.dom()) by {
                        assert forall|x: Seq<char>| kvs.to_set().contains(x) implies cfg.contains_key(x) by {
                            let j = choose|j: int| 0 <= j < kvs.len() && kvs[j] == x;
                            assert(keys@[j]@ == entries@[j].0@);
                        }
                        assert forall|x: Seq<char>| cfg.contains_key(x) implies kvs.to_set().contains(x) by {
                            let j = choose|j: int| 0 <= j < entries@.len() && entries@[j].0@ == x;
                            assert(keys@[j]@ == entries@[j].0@);
                            assert(kvs[j] == x);
                        }
                    }
                    assert(cfg.restrict(kvs.to_set()) =~= cfg);
                    assert forall|a: int, b: int| 0 <= a < kvs.len() && 0 <= b < kvs.len() && a != b
                        implies kvs[a] != kvs[b] by {
                        assert(keys@[a]@ == entries@[a].0@);
                        assert(keys@[b]@ == entries@[b].0@);
                    }
                }
                self.set_variables = keys;
                Ok(())
            },
        }
    }
}

} // verus!
