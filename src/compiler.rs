use vstd::prelude::*;
use crate::config::Config;
use crate::paths::{dir_of, join, join_path, object_name, parent_dir, strip_first, strip_first_segment, with_object_ext};
use crate::resolver::{copy_strings, views, GraphModel, IncludeGraph, ResolveError};
use crate::scan::{include_names, include_pattern_ok, pattern_compiles, scan_includes, INCLUDE_PATTERN};

verus! {

/// A project being built: its configuration, its root, the source and
/// header files found under the root, and, once prepared, the resolved
/// source files and include directories.
pub struct Compiler {
    pub config: Config,
    pub path: String,
    pub src_files: Vec<String>,
    pub header_files: Vec<String>,
    pub needed_src: Vec<String>,
    pub inc_dirs: Vec<String>,
}

/// The contents of the project's files, as far as they could be read:
/// `sources[i]` is the text of source file `i`, `headers[j]` that of header
/// `j`, `main` that of the entry file; `None` marks a file that could not be
/// read.
pub struct SourceTexts {
    pub main: Option<String>,
    pub sources: Vec<Option<String>>,
    pub headers: Vec<Option<String>>,
}

/// The include names of a file, or `None` for one that could not be read.
pub open spec fn scanned(t: Option<String>) -> Option<Seq<Seq<char>>> {
    match t {
        Some(s) => Some(include_names(s@)),
        None => None,
    }
}

fn scan_text(t: &Option<String>) -> (r: Option<Vec<String>>)
    requires
        pattern_compiles(INCLUDE_PATTERN@),
    ensures
        crate::resolver::names_view(r) == scanned(*t),
{
    match t {
        Some(s) => Some(scan_includes(s.as_str())),
        None => None,
    }
}

/// The include names of each file of `texts`, in order.
fn scan_all(texts: &Vec<Option<String>>) -> (r: Vec<Option<Vec<String>>>)
    requires
        pattern_compiles(INCLUDE_PATTERN@),
    ensures
        r@.map_values(|o: Option<Vec<String>>| crate::resolver::names_view(o)) == texts@.map_values(
            |t: Option<String>| scanned(t),
        ),
{
    let mut r: Vec<Option<Vec<String>>> = Vec::new();
    let mut i: usize = 0;
    while i < texts.len()
        invariant
            pattern_compiles(INCLUDE_PATTERN@),
            i <= texts@.len(),
            r@.len() == i,
            r@.map_values(|o: Option<Vec<String>>| crate::resolver::names_view(o)) == texts@.subrange(
                0,
                i as int,
            ).map_values(|t: Option<String>| scanned(t)),
        decreases texts@.len() - i,
    {
        let ghost before = r@;
        let o = scan_text(&texts[i]);
        r.push(o);
        proof {
            assert(r@ =~= before.push(o));
            assert(texts@.subrange(0, i + 1) =~= texts@.subrange(0, i as int).push(texts@[i as int]));
            assert forall|j: int| 0 <= j < i + 1 implies #[trigger] crate::resolver::names_view(r@[j])
                == scanned(texts@.subrange(0, i + 1)[j]) by {
                if j < i {
                    assert(r@[j] == before[j]);
                    assert(before.map_values(|o: Option<Vec<String>>| crate::resolver::names_view(o))[j]
                        == texts@.subrange(0, i as int).map_values(|t: Option<String>| scanned(t))[j]);
                }
            }
            assert(r@.map_values(|o: Option<Vec<String>>| crate::resolver::names_view(o))
                =~= texts@.subrange(0, i + 1).map_values(|t: Option<String>| scanned(t)));
        }
        i = i + 1;
    }
    assert(texts@.subrange(0, texts@.len() as int) =~= texts@);
    r
}

impl Compiler {
    /// The path of the entry file.
    pub open spec fn entry_path(&self) -> Seq<char> {
        join_path(self.path@, self.config.general.main@)
    }

    /// The include graph of the project when its files hold `texts`.
    pub open spec fn graph_model(&self, texts: SourceTexts) -> GraphModel {
        GraphModel {
            entry: self.entry_path(),
            sources: views(self.src_files@),
            headers: views(self.header_files@),
            includes: texts.sources@.map_values(|t: Option<String>| scanned(t))
                + texts.headers@.map_values(|t: Option<String>| scanned(t))
                + seq![scanned(texts.main)],
        }
    }

    /// `texts` holds one entry for each catalog file.
    pub open spec fn texts_fit(&self, texts: SourceTexts) -> bool {
        &&& texts.sources@.len() == self.src_files@.len()
        &&& texts.headers@.len() == self.header_files@.len()
        &&& self.src_files@.len() + self.header_files@.len() < usize::MAX
    }

    /// A compiler for the project at `path`, with the given catalog; nothing
    /// is resolved yet.
    pub fn new(config: Config, path: String, src_files: Vec<String>, header_files: Vec<String>) -> (r: Self)
        ensures
            r.config == config,
            r.path == path,
            r.src_files == src_files,
            r.header_files == header_files,
            r.needed_src@.len() == 0,
            r.inc_dirs@.len() == 0,
    {
        Compiler { config, path, src_files, header_files, needed_src: Vec::new(), inc_dirs: Vec::new() }
    }

    /// Resolves the entry file against the catalog: the source files needed
    /// to build it (the entry file included) and the include directories.
    pub fn get_needed_files(&self, texts: &SourceTexts) -> (r: Result<(Vec<String>, Vec<String>), ResolveError>)
        requires
            self.texts_fit(*texts),
        ensures
            !pattern_compiles(INCLUDE_PATTERN@) ==> r is Err && r->Err_0 is BadPattern,
            pattern_compiles(INCLUDE_PATTERN@) ==> self.graph_model(*texts).resolves_to(r),
    {
        if !include_pattern_ok() {
            return Err(ResolveError::BadPattern);
        }
        let mut includes = scan_all(&texts.sources);
        let mut hs = scan_all(&texts.headers);
        let ghost a = includes@;
        let ghost b = hs@;
        includes.append(&mut hs);
        let m = scan_text(&texts.main);
        includes.push(m);
        let g = IncludeGraph {
            entry: join(self.path.as_str(), self.config.general.main.as_str()),
            sources: copy_strings(&self.src_files),
            headers: copy_strings(&self.header_files),
            includes,
        };
        proof {
            let f = |o: Option<Vec<String>>| crate::resolver::names_view(o);
            assert(g.includes@ =~= a + b + seq![m]);
            assert(g.includes@.map_values(f) =~= a.map_values(f) + b.map_values(f) + seq![f(m)]);
            assert(g@ == self.graph_model(*texts));
        }
        g.resolve()
    }
}

/// A character that separates flags.
pub open spec fn is_space(c: char) -> bool {
    c == ' ' || c == '\t' || c == '\n' || c == '\r'
}

/// The words of `s`, given that the word being read so far is `cur`.
pub open spec fn words_from(s: Seq<char>, cur: Seq<char>) -> Seq<Seq<char>>
    decreases s.len(),
{
    if s.len() == 0 {
        if cur.len() == 0 {
            Seq::empty()
        } else {
            seq![cur]
        }
    } else if is_space(s[0]) {
        (if cur.len() == 0 {
            Seq::empty()
        } else {
            seq![cur]
        }) + words_from(s.drop_first(), Seq::empty())
    } else {
        words_from(s.drop_first(), cur.push(s[0]))
    }
}

/// The whitespace-separated words of `s`, in order, none of them empty.
pub open spec fn words(s: Seq<char>) -> Seq<Seq<char>> {
    words_from(s, Seq::empty())
}

/// Splits a flag string into its words (see `words`), one argument each.
pub fn split_flags(s: &str) -> (r: Vec<String>)
    ensures
        views(r@) == words(s@),
{
    let len = s.unicode_len();
    let mut r: Vec<String> = Vec::new();
    let mut start: usize = 0;
    let mut i: usize = 0;
    proof {
        assert(s@.subrange(0, 0) =~= Seq::<char>::empty());
        assert(s@.subrange(0, len as int) =~= s@);
    }
    while i < len
        invariant
            start <= i <= len,
            len == s@.len(),
            views(r@) + words_from(s@.subrange(i as int, len as int), s@.subrange(start as int, i as int))
                == words(s@),
        decreases len - i,
    {
        let ghost rest = s@.subrange(i as int, len as int);
        let ghost cur = s@.subrange(start as int, i as int);
        let c = s.get_char(i);
        assert(rest[0] == c);
        assert(rest.drop_first() =~= s@.subrange(i + 1, len as int));
        if c == ' ' || c == '\t' || c == '\n' || c == '\r' {
            if i > start {
                let w = String::from_str(s.substring_char(start, i));
                let ghost before = views(r@);
                r.push(w);
                proof {
                    assert(views(r@) =~= before + seq![cur]);
                    assert(s@.subrange(i + 1, i + 1) =~= Seq::<char>::empty());
                }
            } else {
                proof {
                    assert(cur.len() == 0);
                    assert(s@.subrange(i + 1, i + 1) =~= Seq::<char>::empty());
                }
            }
            start = i + 1;
        } else {
            assert(cur.push(c) =~= s@.subrange(start as int, i + 1));
        }
        i = i + 1;
    }
    if i > start {
        let w = String::from_str(s.substring_char(start, i));
        let ghost before = views(r@);
        r.push(w);
        assert(views(r@) =~= before + seq![w@]);
    }
    r
}

/// The include flags for `dirs`: `-I<dir>` for each, in order.
pub open spec fn include_flags(dirs: Seq<Seq<char>>) -> Seq<Seq<char>> {
    dirs.map_values(|d: Seq<char>| seq!['-', 'I'] + d)
}

/// The include flags joined as one string: ` -I<dir>` for each directory.
pub open spec fn inc_string(dirs: Seq<Seq<char>>) -> Seq<char>
    decreases dirs.len(),
{
    if dirs.len() == 0 {
        Seq::empty()
    } else {
        inc_string(dirs.drop_last()) + seq![' ', '-', 'I'] + dirs.last()
    }
}

/// One run of the toolchain: a program and its arguments.
pub struct Invocation {
    pub program: String,
    pub args: Vec<String>,
}

/// The compilation of one source file into one object file, whose directory
/// must exist first.
pub struct CompileStep {
    pub source: String,
    pub object: String,
    pub object_dir: String,
    pub command: Invocation,
}

/// A whole build: one compile step per resolved source file, in order, then
/// one link of all their objects into the target.
pub struct BuildPlan {
    pub steps: Vec<CompileStep>,
    pub link: Invocation,
}

impl Compiler {
    /// The directory that receives the object files.
    pub open spec fn build_root(&self) -> Seq<char> {
        join_path(self.path@, self.config.build.build_dir@)
    }

    /// The executable that the link produces.
    pub open spec fn target_path_spec(&self) -> Seq<char> {
        join_path(self.path@, self.config.general.target@)
    }

    /// Where the object file of `src` goes: its path without the leading
    /// segment, under the build directory, with extension `.o`.
    pub open spec fn object_path(&self, src: Seq<char>) -> Seq<char> {
        join_path(self.build_root(), object_name(strip_first_segment(src)))
    }

    /// The objects of the resolved sources, in order.
    pub open spec fn objects(&self) -> Seq<Seq<char>> {
        views(self.needed_src@).map_values(|s: Seq<char>| self.object_path(s))
    }

    /// `<flag>... -c <src> -I<dir>... -o <obj>`, one argument per flag word.
    pub open spec fn compile_args(&self, src: Seq<char>, obj: Seq<char>) -> Seq<Seq<char>> {
        words(self.config.build.cflags@) + seq![seq!['-', 'c'], src] + include_flags(views(self.inc_dirs@))
            + seq![seq!['-', 'o'], obj]
    }

    /// `<flag>... <object>... -I<dir>... -o <target>`, one argument per flag word.
    pub open spec fn link_args(&self) -> Seq<Seq<char>> {
        words(self.config.build.cflags@) + self.objects() + include_flags(views(self.inc_dirs@))
            + seq![seq!['-', 'o'], self.target_path_spec()]
    }

    /// `step` compiles `src` as the build plan says.
    pub open spec fn is_step_for(&self, step: CompileStep, src: Seq<char>) -> bool {
        &&& step.source@ == src
        &&& step.object@ == self.object_path(src)
        &&& step.object_dir@ == dir_of(self.object_path(src))
        &&& step.command.program@ == self.config.build.cc@
        &&& views(step.command.args@) == self.compile_args(src, self.object_path(src))
    }

    /// Resolves the entry file and keeps the result for the build; on failure
    /// nothing changes.
    pub fn prepare(&mut self, texts: &SourceTexts) -> (r: Result<(), ResolveError>)
        requires
            old(self).texts_fit(*texts),
        ensures
            final(self).config == old(self).config,
            final(self).path == old(self).path,
            final(self).src_files == old(self).src_files,
            final(self).header_files == old(self).header_files,
            !pattern_compiles(INCLUDE_PATTERN@) ==> r is Err && r->Err_0 is BadPattern,
            pattern_compiles(INCLUDE_PATTERN@) ==> match r {
                Ok(()) => old(self).graph_model(*texts).resolves_to(
                    Ok((final(self).needed_src, final(self).inc_dirs)),
                ),
                Err(e) => old(self).graph_model(*texts).resolves_to(Err(e)),
            },
            r is Err ==> final(self).needed_src == old(self).needed_src && final(self).inc_dirs
                == old(self).inc_dirs,
    {
        match self.get_needed_files(texts) {
            Ok((needed_src, inc_dirs)) => {
                self.needed_src = needed_src;
                self.inc_dirs = inc_dirs;
                Ok(())
            },
            Err(e) => Err(e),
        }
    }

    /// The include flags of the resolved include directories as one string.
    pub fn get_inc_string(&self) -> (r: String)
        ensures
            r@ == inc_string(views(self.inc_dirs@)),
    {
        let mut inc = String::new();
        let mut i: usize = 0;
        while i < self.inc_dirs.len()
            invariant
                i <= self.inc_dirs@.len(),
                inc@ == inc_string(views(self.inc_dirs@).subrange(0, i as int)),
            decreases self.inc_dirs@.len() - i,
        {
            inc.append(" -I");
            inc.append(self.inc_dirs[i].as_str());
            proof {
                reveal_strlit(" -I");
                let d = views(self.inc_dirs@);
                assert(d.subrange(0, i + 1).drop_last() =~= d.subrange(0, i as int));
                assert(" -I"@ =~= seq![' ', '-', 'I']);
            }
            i = i + 1;
        }
        proof {
            assert(views(self.inc_dirs@).subrange(0, self.inc_dirs@.len() as int) =~= views(self.inc_dirs@));
        }
        inc
    }

    /// The include flags, one argument per resolved include directory.
    fn include_args(&self) -> (r: Vec<String>)
        ensures
            views(r@) == include_flags(views(self.inc_dirs@)),
    {
        let mut r: Vec<String> = Vec::new();
        let mut i: usize = 0;
        while i < self.inc_dirs.len()
            invariant
                i <= self.inc_dirs@.len(),
                views(r@) == include_flags(views(self.inc_dirs@).subrange(0, i as int)),
            decreases self.inc_dirs@.len() - i,
        {
            let mut f = String::from_str("-I");
            f.append(self.inc_dirs[i].as_str());
            let ghost before = views(r@);
            r.push(f);
            proof {
                reveal_strlit("-I");
                assert("-I"@ =~= seq!['-', 'I']);
                assert(views(r@) =~= before.push(f@));
                assert(views(self.inc_dirs@).subrange(0, i + 1) =~= views(self.inc_dirs@).subrange(0, i as int).push(self.inc_dirs@[i as int]@));
                assert(views(r@) =~= include_flags(views(self.inc_dirs@).subrange(0, i + 1)));
            }
            i = i + 1;
        }
        proof {
            assert(views(self.inc_dirs@).subrange(0, self.inc_dirs@.len() as int) =~= views(self.inc_dirs@));
        }
        r
    }

    /// The directory that receives the object files.
    pub fn build_dir_path(&self) -> (r: String)
        ensures
            r@ == self.build_root(),
    {
        join(self.path.as_str(), self.config.build.build_dir.as_str())
    }

    /// The executable that the link produces.
    pub fn target_path(&self) -> (r: String)
        ensures
            r@ == self.target_path_spec(),
    {
        join(self.path.as_str(), self.config.general.target.as_str())
    }

    /// Where the object file of `src` goes (see `object_path`).
    pub fn object_file(&self, src: &str) -> (r: String)
        ensures
            r@ == self.object_path(src@),
    {
        let root = self.build_dir_path();
        let rel = with_object_ext(strip_first(src).as_str());
        join(root.as_str(), rel.as_str())
    }
}

/// Appends a copy of each string of `src` to `dst`.
fn append_copies(dst: &mut Vec<String>, src: &Vec<String>)
    ensures
        final(dst)@ == old(dst)@ + src@,
{
    let mut i: usize = 0;
    while i < src.len()
        invariant
            i <= src@.len(),
            dst@ == old(dst)@ + src@.subrange(0, i as int),
        decreases src@.len() - i,
    {
        dst.push(src[i].clone());
        assert(dst@ =~= old(dst)@ + src@.subrange(0, i + 1));
        i = i + 1;
    }
    assert(src@.subrange(0, src@.len() as int) =~= src@);
}

impl Compiler {
    /// The build: one compile step for each resolved source file, in order,
    /// then one link whose arguments hold each step's object exactly once.
    pub fn plan(&self) -> (r: BuildPlan)
        ensures
            r.steps@.len() == self.needed_src@.len(),
            forall|i: int|
                0 <= i < self.needed_src@.len() ==> self.is_step_for(
                    #[trigger] r.steps@[i],
                    self.needed_src@[i]@,
                ),
            r.link.program@ == self.config.build.cc@,
            views(r.link.args@) == self.link_args(),
    {
        let incs = self.include_args();
        let flags = split_flags(self.config.build.cflags.as_str());
        let mut steps: Vec<CompileStep> = Vec::new();
        let mut objs: Vec<String> = Vec::new();
        let mut i: usize = 0;
        proof {
            reveal_strlit("-c");
            reveal_strlit("-o");
            assert("-c"@ =~= seq!['-', 'c']);
            assert("-o"@ =~= seq!['-', 'o']);
        }
        while i < self.needed_src.len()
            invariant
                i <= self.needed_src@.len(),
                views(incs@) == include_flags(views(self.inc_dirs@)),
                views(flags@) == words(self.config.build.cflags@),
                "-c"@ == seq!['-', 'c'],
                "-o"@ == seq!['-', 'o'],
                steps@.len() == i,
                forall|j: int| 0 <= j < i ==> self.is_step_for(#[trigger] steps@[j], self.needed_src@[j]@),
                views(objs@) == self.objects().subrange(0, i as int),
            decreases self.needed_src@.len() - i,
        {
            let src = &self.needed_src[i];
            let obj = self.object_file(src.as_str());
            let dir = parent_dir(obj.as_str());
            let mut args: Vec<String> = Vec::new();
            append_copies(&mut args, &flags);
            args.push(String::from_str("-c"));
            args.push(src.clone());
            let ghost head = args@;
            append_copies(&mut args, &incs);
            args.push(String::from_str("-o"));
            args.push(obj.clone());
            proof {
                assert(views(args@) =~= self.compile_args(src@, obj@)) by {
                    assert(views(head) =~= views(flags@) + seq![seq!['-', 'c'], src@]);
                    assert(views(head + incs@) =~= views(head) + views(incs@));
                }
            }
            let step = CompileStep {
                source: src.clone(),
                object: obj.clone(),
                object_dir: dir,
                command: Invocation { program: self.config.build.cc.clone(), args },
            };
            let ghost before = views(objs@);
            steps.push(step);
            objs.push(obj);
            proof {
                assert(views(objs@) =~= before.push(self.object_path(self.needed_src@[i as int]@)));
                assert(views(objs@) =~= self.objects().subrange(0, i + 1));
            }
            i = i + 1;
        }
        let mut args: Vec<String> = Vec::new();
        append_copies(&mut args, &flags);
        let ghost a0 = args@;
        append_copies(&mut args, &objs);
        let ghost a1 = args@;
        append_copies(&mut args, &incs);
        let ghost a2 = args@;
        args.push(String::from_str("-o"));
        let target = self.target_path();
        args.push(target);
        proof {
            assert(self.objects().subrange(0, self.needed_src@.len() as int) =~= self.objects());
            assert(views(a0) =~= views(flags@));
            assert(views(a1) =~= views(a0) + views(objs@));
            assert(views(a2) =~= views(a1) + views(incs@));
            assert(views(args@) =~= self.link_args());
        }
        BuildPlan { steps, link: Invocation { program: self.config.build.cc.clone(), args } }
    }
}

} // verus!
