//! Dotted keys: the path of a leaf written as one string.

use vstd::prelude::*;
use vstd::string::*;

verus! {

/// The separator between the names of a dotted key.
pub open spec fn dot() -> char {
    '.'
}

/// The segments of a dotted key, reading it from left to right: a dot closes
/// the current segment and opens an empty one, any other character joins the
/// current segment. A key without a dot is its own single segment.
pub open spec fn segments(key: Seq<char>) -> Seq<Seq<char>>
    decreases key.len(),
{
    if key.len() == 0 {
        seq![Seq::empty()]
    } else {
        let before = segments(key.drop_last());
        if key.last() == dot() {
            before.push(Seq::empty())
        } else {
            before.drop_last().push(before.last().push(key.last()))
        }
    }
}

/// The key of the member `name` of an object that sits at `prefix`: the name
/// alone under the empty prefix, else prefix, dot, name.
pub open spec fn nested_key(prefix: Seq<char>, name: Seq<char>) -> Seq<char> {
    if prefix.len() == 0 {
        name
    } else {
        prefix + seq![dot()] + name
    }
}

/// The names of `path` written with a dot between neighbours.
pub open spec fn joined(path: Seq<Seq<char>>) -> Seq<char>
    decreases path.len(),
{
    if path.len() == 0 {
        Seq::empty()
    } else if path.len() == 1 {
        path[0]
    } else {
        joined(path.drop_last()) + seq![dot()] + path.last()
    }
}

/// No character of `name` is the separator.
pub open spec fn dot_free(name: Seq<char>) -> bool {
    forall|i: int| 0 <= i < name.len() ==> name[i] != dot()
}

/// The texts of a list of strings.
pub open spec fn texts(strings: Seq<String>) -> Seq<Seq<char>> {
    Seq::new(strings.len(), |i: int| strings[i]@)
}

/// A key always has at least one segment.
pub proof fn lemma_segments_nonempty(key: Seq<char>)
    ensures
        segments(key).len() >= 1,
    decreases key.len(),
{
    if key.len() > 0 {
        lemma_segments_nonempty(key.drop_last());
    }
}

/// No segment of a key holds a dot.
pub proof fn lemma_segments_dot_free(key: Seq<char>)
    ensures
        forall|i: int| 0 <= i < segments(key).len() ==> dot_free(#[trigger] segments(key)[i]),
    decreases key.len(),
{
    if key.len() > 0 {
        lemma_segments_nonempty(key.drop_last());
        lemma_segments_dot_free(key.drop_last());
    }
}

/// A name without a dot is a key of one segment.
pub proof fn lemma_segments_of_name(name: Seq<char>)
    requires
        dot_free(name),
    ensures
        segments(name) == seq![name],
    decreases name.len(),
{
    if name.len() > 0 {
        lemma_segments_of_name(name.drop_last());
        assert(name.drop_last().push(name.last()) =~= name);
        assert(seq![name.drop_last()].drop_last().push(name) =~= seq![name]);
    } else {
        assert(name =~= Seq::empty());
    }
}

/// Appending a dot and a name without a dot appends that name as a segment.
pub proof fn lemma_segments_append(key: Seq<char>, name: Seq<char>)
    requires
        dot_free(name),
    ensures
        segments(key + seq![dot()] + name) == segments(key).push(name),
    decreases name.len(),
{
    let whole = key + seq![dot()] + name;
    if name.len() == 0 {
        assert(whole.drop_last() =~= key);
        assert(name =~= Seq::empty());
    } else {
        let shorter = name.drop_last();
        lemma_segments_append(key, shorter);
        assert(whole.drop_last() =~= key + seq![dot()] + shorter);
        assert(whole.last() == name.last());
        assert(shorter.push(name.last()) =~= name);
        assert(segments(key).push(shorter).drop_last() =~= segments(key));
    }
}

/// Splitting the joined form of a path gives the path back, if no name on it
/// holds a dot.
pub proof fn lemma_segments_of_joined(path: Seq<Seq<char>>)
    requires
        path.len() >= 1,
        forall|i: int| 0 <= i < path.len() ==> dot_free(#[trigger] path[i]),
    ensures
        segments(joined(path)) == path,
    decreases path.len(),
{
    if path.len() == 1 {
        lemma_segments_of_name(path[0]);
        assert(seq![path[0]] =~= path);
    } else {
        lemma_segments_of_joined(path.drop_last());
        lemma_segments_append(joined(path.drop_last()), path.last());
        assert(path.drop_last().push(path.last()) =~= path);
    }
}

/// The segments of `key`, each as a string of its own.
pub fn split_key(key: &str) -> (parts: Vec<String>)
    ensures
        texts(parts@) == segments(key@),
{
    let n = key.unicode_len();
    let mut parts: Vec<String> = Vec::new();
    let mut start: usize = 0;
    let mut i: usize = 0;
    assert(key@.take(0) =~= Seq::empty());
    assert(texts(parts@).push(key@.subrange(0, 0)) =~= seq![Seq::empty()]);
    while i < n
        invariant
            n == key@.len(),
            start <= i <= n,
            segments(key@.take(i as int)) == texts(parts@).push(
                key@.subrange(start as int, i as int),
            ),
        decreases n - i,
    {
        let c = key.get_char(i);
        let ghost before = segments(key@.take(i as int));
        let ghost old_texts = texts(parts@);
        proof {
            assert(key@.take(i + 1).drop_last() =~= key@.take(i as int));
            assert(key@.take(i + 1).last() == key@[i as int]);
        }
        if c == '.' {
            parts.push(String::from_str(key.substring_char(start, i)));
            start = i + 1;
            proof {
                assert(texts(parts@) =~= before);
                assert(key@.subrange(start as int, i + 1) =~= Seq::empty());
            }
        } else {
            proof {
                assert(before.drop_last() =~= old_texts);
                assert(before.last().push(c) =~= key@.subrange(start as int, i + 1));
            }
        }
        i += 1;
    }
    proof {
        assert(key@.take(n as int) =~= key@);
    }
    let ghost before = texts(parts@);
    parts.push(String::from_str(key.substring_char(start, n)));
    proof {
        assert(texts(parts@) =~= before.push(key@.subrange(start as int, n as int)));
    }
    parts
}

/// The last segment of `key`: what stands behind its last dot, or all of it.
pub fn get_last_key_part(key: &str) -> (part: &str)
    ensures
        part@ == segments(key@).last(),
{
    let n = key.unicode_len();
    let mut start: usize = 0;
    let mut i: usize = 0;
    assert(key@.take(0) =~= Seq::empty());
    assert(key@.subrange(0, 0) =~= Seq::empty());
    while i < n
        invariant
            n == key@.len(),
            start <= i <= n,
            segments(key@.take(i as int)).len() >= 1,
            segments(key@.take(i as int)).last() == key@.subrange(start as int, i as int),
        decreases n - i,
    {
        let c = key.get_char(i);
        proof {
            assert(key@.take(i + 1).drop_last() =~= key@.take(i as int));
            assert(key@.take(i + 1).last() == key@[i as int]);
        }
        if c == '.' {
            start = i + 1;
            proof {
                assert(key@.subrange(start as int, i + 1) =~= Seq::empty());
            }
        } else {
            proof {
                assert(segments(key@.take(i as int)).last().push(c) =~= key@.subrange(
                    start as int,
                    i + 1,
                ));
            }
        }
        i += 1;
    }
    proof {
        assert(key@.take(n as int) =~= key@);
    }
    key.substring_char(start, n)
}

/// The key of the member `name` under `prefix`, as a new string.
pub fn join_key(prefix: &str, name: &str) -> (key: String)
    ensures
        key@ == nested_key(prefix@, name@),
{
    if prefix.is_empty() {
        String::from_str(name)
    } else {
        let mut key = String::from_str(prefix);
        proof {
            reveal_strlit(".");
        }
        key.append(".");
        key.append(name);
        proof {
            assert("."@ =~= seq![dot()]);
        }
        key
    }
}

} // verus!
