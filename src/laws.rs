use vstd::prelude::*;

use crate::parser::env_after;
use crate::text::{config_of, config_of_text, has_pair, idx_of, key_of, lemma_idx_of, lemma_idx_of_props, lines_of, value_of};

verus! {

/// Reading lines `a` and then lines `b` gives the mapping of `a` overridden by
/// the mapping of `b`.
pub proof fn lemma_config_concat(a: Seq<Seq<char>>, b: Seq<Seq<char>>)
    ensures
        config_of(a + b) == config_of(a).union_prefer_right(config_of(b)),
    decreases b.len(),
{
    if b.len() == 0 {
        assert(a + b =~= a);
        assert(config_of(a).union_prefer_right(config_of(b)) =~= config_of(a));
    } else {
        lemma_config_concat(a, b.drop_last());
        assert((a + b).drop_last() =~= a + b.drop_last());
        assert((a + b).last() == b.last());
        let l = b.last();
        if has_pair(l) {
            assert(config_of(a + b) =~= config_of(a).union_prefer_right(config_of(b)));
        } else {
            assert(config_of(a + b) =~= config_of(a).union_prefer_right(config_of(b)));
        }
    }
}

/// A key is in the mapping of some lines exactly when one of those lines
/// holds an `=` and has that key.
pub proof fn lemma_keys_come_from_pair_lines(lines: Seq<Seq<char>>, k: Seq<char>)
    ensures
        config_of(lines).contains_key(k) <==> exists|j: int|
            0 <= j < lines.len() && has_pair(#[trigger] lines[j]) && key_of(lines[j]) == k,
    decreases lines.len(),
{
    if lines.len() > 0 {
        let init = lines.drop_last();
        lemma_keys_come_from_pair_lines(init, k);
        if exists|j: int| 0 <= j < init.len() && has_pair(#[trigger] init[j]) && key_of(init[j]) == k {
            let j = choose|j: int|
                0 <= j < init.len() && has_pair(#[trigger] init[j]) && key_of(init[j]) == k;
            assert(lines[j] == init[j]);
        }
        if exists|j: int| 0 <= j < lines.len() && has_pair(#[trigger] lines[j]) && key_of(lines[j]) == k {
            let j = choose|j: int|
                0 <= j < lines.len() && has_pair(#[trigger] lines[j]) && key_of(lines[j]) == k;
            if j < init.len() {
                assert(init[j] == lines[j]);
            }
        }
    }
}

/// A line without `=` sets nothing: the lines around it give the same mapping
/// with it as without it.
pub proof fn lemma_line_without_separator_sets_nothing(
    a: Seq<Seq<char>>,
    line: Seq<char>,
    b: Seq<Seq<char>>,
)
    requires
        !line.contains('='),
    ensures
        config_of(a + seq![line] + b) == config_of(a + b),
{
    lemma_idx_of_props(line, '=');
    lemma_config_concat(a + seq![line], b);
    lemma_config_concat(a, b);
    assert((a + seq![line]).drop_last() =~= a);
}

/// A line `KEY=VALUE` (no `=` in either part) whose key no later line sets
/// again leaves the variable `KEY` holding exactly `VALUE` after a load,
/// whatever the environment held before.
pub proof fn lemma_pair_line_sets_value(
    env: Map<Seq<char>, Seq<char>>,
    content: Seq<char>,
    i: int,
    key: Seq<char>,
    value: Seq<char>,
)
    requires
        0 <= i < lines_of(content).len(),
        lines_of(content)[i] == key + seq!['='] + value,
        !key.contains('='),
        !value.contains('='),
        forall|j: int|
            i < j < lines_of(content).len() && has_pair(#[trigger] lines_of(content)[j])
                ==> key_of(lines_of(content)[j]) != key,
    ensures
        env_after(env, content).contains_key(key),
        env_after(env, content)[key] == value,
{
    let lines = lines_of(content);
    let line = lines[i];
    lemma_idx_of_props(key, '=');
    lemma_idx_of_props(value, '=');
    assert forall|j: int| 0 <= j < key.len() implies line[j] != '=' by {
        assert(line[j] == key[j]);
    }
    lemma_idx_of(line, '=', key.len() as int);
    assert(key_of(line) =~= key);
    let rest = line.skip(key.len() + 1 as int);
    assert(rest =~= value);
    assert(value_of(line) =~= value);
    let pre = lines.take(i + 1);
    let post = lines.skip(i + 1);
    assert(lines =~= pre + post);
    lemma_config_concat(pre, post);
    assert(pre.drop_last() =~= lines.take(i));
    assert(config_of(pre) == config_of(lines.take(i)).insert(key, value));
    lemma_keys_come_from_pair_lines(post, key);
    if config_of(post).contains_key(key) {
        let j = choose|j: int|
            0 <= j < post.len() && has_pair(#[trigger] post[j]) && key_of(post[j]) == key;
        assert(post[j] == lines[i + 1 + j]);
    }
}

/// Loading the same text twice leaves the environment as one load does.
pub proof fn lemma_parse_idempotent(env: Map<Seq<char>, Seq<char>>, content: Seq<char>)
    ensures
        env_after(env_after(env, content), content) == env_after(env, content),
{
    assert(env_after(env_after(env, content), content) =~= env_after(env, content));
}

} // verus!
