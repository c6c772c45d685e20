use vstd::prelude::*;

verus! {

/// Index of the last `'/'` in `p`, or -1 when there is none.
pub open spec fn last_slash(p: Seq<char>) -> int
    decreases p.len(),
{
    if p.len() == 0 {
        -1
    } else if p.last() == '/' {
        p.len() - 1
    } else {
        last_slash(p.drop_last())
    }
}

/// The file name of a path: everything after its last separator.
pub open spec fn basename(p: Seq<char>) -> Seq<char> {
    p.subrange(last_slash(p) + 1, p.len() as int)
}

/// The directory of a path: everything before its last separator
/// (empty for a bare file name).
pub open spec fn dir_of(p: Seq<char>) -> Seq<char> {
    if last_slash(p) < 0 {
        Seq::empty()
    } else {
        p.subrange(0, last_slash(p))
    }
}

/// The part of a name before its first `'.'` (the whole name when it has none).
pub open spec fn before_dot(n: Seq<char>) -> Seq<char>
    decreases n.len(),
{
    if n.len() == 0 {
        n
    } else if n[0] == '.' {
        Seq::empty()
    } else {
        seq![n[0]] + before_dot(n.drop_first())
    }
}

/// The name of the implementation file paired with an included header name:
/// `foo.h` pairs with `foo.c`.
pub open spec fn paired_source_name(n: Seq<char>) -> Seq<char> {
    before_dot(n) + seq!['.', 'c']
}

pub proof fn lemma_last_slash_range(p: Seq<char>)
    ensures
        -1 <= last_slash(p) < p.len(),
        last_slash(p) >= 0 ==> p[last_slash(p)] == '/',
    decreases p.len(),
{
    if p.len() > 0 && p.last() != '/' {
        lemma_last_slash_range(p.drop_last());
    }
}

proof fn lemma_before_dot_prefix(n: Seq<char>, i: int)
    requires
        0 <= i <= n.len(),
        forall|j: int| 0 <= j < i ==> n[j] != '.',
        i == n.len() || n[i] == '.',
    ensures
        before_dot(n) == n.subrange(0, i),
    decreases n.len(),
{
    if n.len() > 0 && i > 0 {
        lemma_before_dot_prefix(n.drop_first(), i - 1);
        assert(n.subrange(0, i) =~= seq![n[0]] + n.drop_first().subrange(0, i - 1));
    } else {
        assert(n.subrange(0, i) =~= Seq::<char>::empty());
    }
}

/// Position just after the last separator of `p` (0 when there is none).
fn name_start(p: &str) -> (r: usize)
    ensures
        r as int == last_slash(p@) + 1,
{
    let len = p.unicode_len();
    let mut i: usize = len;
    proof {
        assert(p@.subrange(0, len as int) =~= p@);
    }
    while i > 0
        invariant
            i <= len,
            len == p@.len(),
            last_slash(p@) == last_slash(p@.subrange(0, i as int)),
        decreases i,
    {
        let ghost sub = p@.subrange(0, i as int);
        if p.get_char(i - 1) == '/' {
            assert(sub.last() == '/');
            return i;
        }
        assert(sub.drop_last() =~= p@.subrange(0, i - 1));
        i = i - 1;
    }
    proof {
        assert(p@.subrange(0, 0).len() == 0);
    }
    0
}

/// The file name of `p` (see `basename`).
pub fn file_name(p: &str) -> (r: String)
    ensures
        r@ == basename(p@),
{
    proof {
        lemma_last_slash_range(p@);
    }
    let start = name_start(p);
    let len = p.unicode_len();
    String::from_str(p.substring_char(start, len))
}

/// The directory part of `p` (see `dir_of`).
pub fn parent_dir(p: &str) -> (r: String)
    ensures
        r@ == dir_of(p@),
{
    proof {
        lemma_last_slash_range(p@);
    }
    let start = name_start(p);
    if start == 0 {
        String::new()
    } else {
        String::from_str(p.substring_char(0, start - 1))
    }
}

/// The implementation file name paired with header name `n`
/// (see `paired_source_name`).
pub fn source_name_for(n: &str) -> (r: String)
    ensures
        r@ == paired_source_name(n@),
{
    let len = n.unicode_len();
    let mut i: usize = 0;
    while i < len
        invariant
            i <= len,
            len == n@.len(),
            forall|j: int| 0 <= j < i ==> n@[j] != '.',
        ensures
            i <= len,
            forall|j: int| 0 <= j < i ==> n@[j] != '.',
            i == len || n@[i as int] == '.',
        decreases len - i,
    {
        if n.get_char(i) == '.' {
            break;
        }
        i = i + 1;
    }
    proof {
        lemma_before_dot_prefix(n@, i as int);
    }
    let mut r = String::from_str(n.substring_char(0, i));
    r.append(".c");
    proof {
        reveal_strlit(".c");
        assert(".c"@ =~= seq!['.', 'c']);
    }
    r
}

/// `b` placed under directory `a` (`b` is taken as relative).
pub open spec fn join_path(a: Seq<char>, b: Seq<char>) -> Seq<char> {
    if a.len() == 0 {
        b
    } else if a.last() == '/' {
        a + b
    } else {
        a + seq!['/'] + b
    }
}

/// `i` is the position of the first separator of `p`.
pub open spec fn is_first_slash(p: Seq<char>, i: int) -> bool {
    &&& 0 <= i < p.len()
    &&& p[i] == '/'
    &&& forall|j: int| 0 <= j < i ==> p[j] != '/'
}

/// `p` without its leading segment (the project-root component).
///
/// What a path of one segment should become is an open question; this
/// function keeps such a path whole, and callers should not rely on that.
pub open spec fn strip_first_segment(p: Seq<char>) -> Seq<char> {
    if exists|i: int| is_first_slash(p, i) {
        p.subrange((choose|i: int| is_first_slash(p, i)) + 1, p.len() as int)
    } else {
        p
    }
}

/// Index of the last `'.'` in `p`, or -1 when there is none.
pub open spec fn last_dot(p: Seq<char>) -> int
    decreases p.len(),
{
    if p.len() == 0 {
        -1
    } else if p.last() == '.' {
        p.len() - 1
    } else {
        last_dot(p.drop_last())
    }
}

/// `p` with the extension of its file name replaced by `.o` (added when the
/// file name has none).
pub open spec fn object_name(p: Seq<char>) -> Seq<char> {
    if last_dot(p) > last_slash(p) {
        p.subrange(0, last_dot(p)) + seq!['.', 'o']
    } else {
        p + seq!['.', 'o']
    }
}

/// `b` placed under directory `a` (see `join_path`).
pub fn join(a: &str, b: &str) -> (r: String)
    ensures
        r@ == join_path(a@, b@),
{
    let len = a.unicode_len();
    let mut r = String::from_str(a);
    if len > 0 && a.get_char(len - 1) != '/' {
        r.append("/");
        proof {
            reveal_strlit("/");
        }
    }
    r.append(b);
    proof {
        if a@.len() > 0 && a@.last() != '/' {
            assert("/"@ =~= seq!['/']);
        }
        assert(r@ =~= join_path(a@, b@));
    }
    r
}

/// `p` without its leading segment (see `strip_first_segment`).
pub fn strip_first(p: &str) -> (r: String)
    ensures
        r@ == strip_first_segment(p@),
{
    let len = p.unicode_len();
    let mut i: usize = 0;
    while i < len
        invariant
            i <= len,
            len == p@.len(),
            forall|j: int| 0 <= j < i ==> p@[j] != '/',
        decreases len - i,
    {
        if p.get_char(i) == '/' {
            proof {
                assert(is_first_slash(p@, i as int));
                let c = choose|c: int| is_first_slash(p@, c);
                assert(c == i as int) by {
                    if c < i {
                        assert(p@[c] != '/');
                    } else if c > i {
                        assert(p@[i as int] == '/');
                    }
                }
            }
            return String::from_str(p.substring_char(i + 1, len));
        }
        i = i + 1;
    }
    String::from_str(p)
}

/// Position of the last `'.'` in `p` plus one (0 when there is none).
fn dot_end(p: &str) -> (r: usize)
    ensures
        r as int == last_dot(p@) + 1,
{
    let len = p.unicode_len();
    let mut i: usize = len;
    proof {
        assert(p@.subrange(0, len as int) =~= p@);
    }
    while i > 0
        invariant
            i <= len,
            len == p@.len(),
            last_dot(p@) == last_dot(p@.subrange(0, i as int)),
        decreases i,
    {
        let ghost sub = p@.subrange(0, i as int);
        if p.get_char(i - 1) == '.' {
            assert(sub.last() == '.');
            return i;
        }
        assert(sub.drop_last() =~= p@.subrange(0, i - 1));
        i = i - 1;
    }
    proof {
        assert(p@.subrange(0, 0).len() == 0);
    }
    0
}

proof fn lemma_last_dot_range(p: Seq<char>)
    ensures
        -1 <= last_dot(p) < p.len(),
    decreases p.len(),
{
    if p.len() > 0 && p.last() != '.' {
        lemma_last_dot_range(p.drop_last());
    }
}

/// `p` with its extension replaced by `.o` (see `object_name`).
pub fn with_object_ext(p: &str) -> (r: String)
    ensures
        r@ == object_name(p@),
{
    proof {
        lemma_last_dot_range(p@);
        lemma_last_slash_range(p@);
    }
    let d = dot_end(p);
    let s = name_start(p);
    let mut r = if d > s {
        String::from_str(p.substring_char(0, d - 1))
    } else {
        String::from_str(p)
    };
    r.append(".o");
    proof {
        reveal_strlit(".o");
        assert(".o"@ =~= seq!['.', 'o']);
    }
    r
}

/// What the catalog makes of a file.
pub enum FileKind {
    Source,
    Header,
    Other,
}

/// The text after the last `'.'` of `p` (all of `p` when it has none).
pub open spec fn extension_of(p: Seq<char>) -> Seq<char> {
    p.subrange(last_dot(p) + 1, p.len() as int)
}

/// The kind of a file by its extension: `c` is a source, `h` a header.
pub open spec fn kind_of(p: Seq<char>) -> FileKind {
    if extension_of(p) == seq!['c'] {
        FileKind::Source
    } else if extension_of(p) == seq!['h'] {
        FileKind::Header
    } else {
        FileKind::Other
    }
}

/// Classifies a file found under the project root (see `kind_of`).
pub fn classify(p: &str) -> (r: FileKind)
    ensures
        r == kind_of(p@),
{
    proof {
        lemma_last_dot_range(p@);
    }
    let start = dot_end(p);
    let len = p.unicode_len();
    assert(extension_of(p@).len() == len - start);
    if len - start == 1 {
        let c = p.get_char(start);
        proof {
            assert(extension_of(p@) =~= seq![c]);
        }
        if c == 'c' {
            return FileKind::Source;
        } else if c == 'h' {
            return FileKind::Header;
        }
        assert(extension_of(p@) != seq!['c']) by {
            assert(extension_of(p@)[0] == c);
        }
        assert(extension_of(p@) != seq!['h']) by {
            assert(extension_of(p@)[0] == c);
        }
    } else {
        assert(extension_of(p@) != seq!['c']);
        assert(extension_of(p@) != seq!['h']);
    }
    FileKind::Other
}

} // verus!
