//! Raw import strings of one source unit.
//!
//! The unit comes as a tree that keeps of the syntax only what the extraction reads:
//! import statements, `if` statements with the text of their condition, calls with
//! their callee and positional arguments, names, and the nesting of everything else.
use vstd::prelude::*;
use vstd::string::*;
use crate::text::{
    ends_with, has_suffix, last_index_of, lemma_last_index_of, lemma_views_push, push_char,
    rfind_char, str_eq, views,
};

verus! {

/// Why the imports of a file could not be had.
#[derive(Debug)]
pub enum Error {
    /// The file could not be read; the message says why.
    IO(String),
    /// The file is no valid source; the message says why.
    Parse(String),
}

impl Error {
    /// The message of the error.
    pub fn message(&self) -> (m: &str)
        ensures
            m@ == match *self {
                Error::IO(s) => s@,
                Error::Parse(s) => s@,
            },
    {
        match self {
            Error::IO(s) => s.as_str(),
            Error::Parse(s) => s.as_str(),
        }
    }
}

/// What a call calls.
pub enum Callee {
    /// A plain name.
    Name(String),
    /// An attribute `attr` of a plain name `object`.
    Attribute { object: String, attr: String },
    /// Anything else.
    Other,
}

/// One node of the syntax tree, with its parts in source order.
pub enum Syntax {
    /// `import a, b.c as d`, with the names imported.
    Import { names: Vec<String> },
    /// `from ..m import a, b`, with the number of leading dots, the module if one is
    /// named, and the names imported.
    ImportFrom { level: u32, module: Option<String>, names: Vec<String> },
    /// An `if` statement, with the source text of its condition.
    If { test: String, parts: Vec<Syntax> },
    /// Any other statement.
    Statement { parts: Vec<Syntax> },
    /// A call; `args` holds for each positional argument its value if it is a string
    /// literal.
    Call { func: Callee, args: Vec<Option<String>>, parts: Vec<Syntax> },
    /// A name.
    Name { id: String },
    /// Any other expression.
    Expression { parts: Vec<Syntax> },
}

/// Where `s` is cut to drop its last `depth` components: the position of the
/// `depth`-th separator from the end.
pub open spec fn split_point(s: Seq<char>, sep: char, depth: nat) -> Option<int>
    decreases depth,
{
    if depth == 0 {
        Some(s.len() as int)
    } else {
        match split_point(s, sep, (depth - 1) as nat) {
            Some(i) => if 0 <= i <= s.len() {
                last_index_of(s.take(i), sep)
            } else {
                None
            },
            None => None,
        }
    }
}

pub proof fn lemma_split_point(s: Seq<char>, sep: char, depth: nat)
    ensures
        match split_point(s, sep, depth) {
            Some(i) => 0 <= i <= s.len() && (depth > 0 ==> i < s.len() && s[i] == sep),
            None => depth > 0,
        },
    decreases depth,
{
    if depth > 0 {
        lemma_split_point(s, sep, (depth - 1) as nat);
        match split_point(s, sep, (depth - 1) as nat) {
            Some(i) => {
                lemma_last_index_of(s.take(i), sep);
            },
            None => {},
        }
    }
}

/// `filepath` cut at the `depth`-th separator from its end: what precedes that
/// separator, and what follows it.
pub fn split_at_depth(filepath: &str, sep: char, depth: usize) -> (r: (&str, &str))
    requires
        depth >= 1,
        split_point(filepath@, sep, depth as nat) is Some,
    ensures
        r.0@ == filepath@.take(split_point(filepath@, sep, depth as nat)->0),
        r.1@ == filepath@.skip(split_point(filepath@, sep, depth as nat)->0 + 1),
{
    match try_split_at_depth(filepath, sep, depth) {
        Some(r) => r,
        None => {
            proof {
                assert(false);
            }
            (filepath, filepath)
        },
    }
}

/// As `split_at_depth`, for any input: `None` where `filepath` has fewer than `depth`
/// separators, or `depth` is 0.
pub fn try_split_at_depth(filepath: &str, sep: char, depth: usize) -> (r: Option<(&str, &str)>)
    ensures
        match r {
            Some(p) => depth >= 1 && split_point(filepath@, sep, depth as nat) is Some && p.0@
                == filepath@.take(split_point(filepath@, sep, depth as nat)->0) && p.1@
                == filepath@.skip(split_point(filepath@, sep, depth as nat)->0 + 1),
            None => depth == 0 || split_point(filepath@, sep, depth as nat) is None,
        },
{
    if depth == 0 {
        return None;
    }
    let total = filepath.unicode_len();
    let mut idx: usize = total;
    let mut done: usize = 0;
    while done < depth
        invariant
            done <= depth,
            total == filepath@.len(),
            idx <= total,
            split_point(filepath@, sep, done as nat) == Some(idx as int),
        decreases depth - done,
    {
        let head = filepath.substring_char(0, idx);
        assert(head@ =~= filepath@.take(idx as int));
        match rfind_char(head, sep) {
            Some(next) => {
                proof {
                    lemma_last_index_of(head@, sep);
                }
                idx = next;
                done += 1;
            },
            None => {
                proof {
                    lemma_no_split_point(filepath@, sep, (done + 1) as nat, depth as nat);
                }
                return None;
            },
        }
    }
    proof {
        lemma_split_point(filepath@, sep, depth as nat);
        assert(filepath@.subrange(0, idx as int) =~= filepath@.take(idx as int));
        assert(filepath@.subrange(idx + 1, total as int) =~= filepath@.skip(idx + 1));
    }
    Some((filepath.substring_char(0, idx), filepath.substring_char(idx + 1, total)))
}

proof fn lemma_no_split_point(s: Seq<char>, sep: char, k: nat, depth: nat)
    requires
        k <= depth,
        split_point(s, sep, k) is None,
    ensures
        split_point(s, sep, depth) is None,
    decreases depth - k,
{
    if k < depth {
        lemma_no_split_point(s, sep, k, (depth - 1) as nat);
    }
}

/// Whether a call with this callee imports a module by name: `__import__`,
/// `import_module`, `importlib.import_module` or `builtins.__import__`.
pub open spec fn is_import_fn(func: Callee) -> bool {
    match func {
        Callee::Name(n) => n@ == "__import__"@ || n@ == "import_module"@,
        Callee::Attribute { object, attr } => (object@ == "importlib"@ && attr@
            == "import_module"@) || (object@ == "builtins"@ && attr@ == "__import__"@),
        Callee::Other => false,
    }
}

/// Whether the condition of an `if` marks code for the type checker only.
pub open spec fn is_type_checking(test: Seq<char>) -> bool {
    test == "TYPE_CHECKING"@ || test == "typing.TYPE_CHECKING"@
}

/// The module that a from-import names, seen from `current`: `current` without its
/// last `level` components, then `module`. `None` where `current` has fewer than
/// `level` components to drop.
pub open spec fn from_target(current: Seq<char>, level: nat, module: Option<Seq<char>>) -> Option<
    Seq<char>,
> {
    let base: Option<Seq<char>> = if level > 0 {
        match split_point(current, '.', level) {
            Some(i) => Some(current.take(i)),
            None => None,
        }
    } else {
        Some(Seq::<char>::empty())
    };
    match base {
        None => None,
        Some(b) => match module {
            None => Some(b),
            Some(m) => if b.len() > 0 {
                Some(b + seq!['.'] + m)
            } else {
                Some(m)
            },
        },
    }
}

/// `target` and then `target.name` for each name.
pub open spec fn with_members(target: Seq<char>, names: Seq<String>) -> Seq<Seq<char>> {
    seq![target] + names.map_values(|n: String| target + seq!['.'] + n@)
}

/// The views of `names`.
pub open spec fn name_views(names: Seq<String>) -> Seq<Seq<char>> {
    names.map_values(|n: String| n@)
}

impl Syntax {
    /// The parts of the node.
    pub open spec fn parts(self) -> Seq<Syntax> {
        match self {
            Syntax::If { test, parts } => parts@,
            Syntax::Statement { parts } => parts@,
            Syntax::Call { func, args, parts } => parts@,
            Syntax::Expression { parts } => parts@,
            _ => Seq::<Syntax>::empty(),
        }
    }

    /// What the node itself contributes, before its parts.
    pub open spec fn own_imports(self, current: Seq<char>) -> Option<Seq<Seq<char>>> {
        match self {
            Syntax::Import { names } => Some(name_views(names@)),
            Syntax::ImportFrom { level, module, names } => match from_target(
                current,
                level as nat,
                crate::moduleref::opt_chars(module),
            ) {
                Some(t) => Some(with_members(t, names@)),
                None => None,
            },
            Syntax::Call { func, args, parts } => if is_import_fn(func) && args@.len() == 1
                && args@[0] is Some {
                Some(seq![args@[0]->0@])
            } else {
                Some(Seq::<Seq<char>>::empty())
            },
            Syntax::Name { id } => if id@ == "__import__"@ {
                Some(seq!["__import__"@])
            } else {
                Some(Seq::<Seq<char>>::empty())
            },
            _ => Some(Seq::<Seq<char>>::empty()),
        }
    }

    /// Whether the parts of the node are looked at.
    pub open spec fn descends(self, deep: bool, include_typechecking: bool) -> bool {
        match self {
            Syntax::If { test, parts } => deep && !(is_type_checking(test@)
                && !include_typechecking),
            Syntax::Statement { parts } => deep,
            Syntax::Call { func, args, parts } => true,
            Syntax::Expression { parts } => true,
            _ => false,
        }
    }

    /// The raw imports of the node and what is below it, in source order; `None` where
    /// a from-import reaches above the top of `current`.
    pub open spec fn imports(
        self,
        current: Seq<char>,
        deep: bool,
        include_typechecking: bool,
    ) -> Option<Seq<Seq<char>>>
        decreases self, self.parts().len() + 1,
    {
        match self.own_imports(current) {
            None => None,
            Some(own) => if self.descends(deep, include_typechecking) {
                match self.imports_of_parts(
                    current,
                    deep,
                    include_typechecking,
                    self.parts().len(),
                ) {
                    Some(below) => Some(own + below),
                    None => None,
                }
            } else {
                Some(own)
            },
        }
    }

    /// The raw imports of the first `k` parts of the node.
    pub open spec fn imports_of_parts(
        self,
        current: Seq<char>,
        deep: bool,
        include_typechecking: bool,
        k: nat,
    ) -> Option<Seq<Seq<char>>>
        decreases self, k,
    {
        if k == 0 || k > self.parts().len() {
            Some(Seq::<Seq<char>>::empty())
        } else {
            match (
                self.imports_of_parts(current, deep, include_typechecking, (k - 1) as nat),
                self.parts()[k - 1].imports(current, deep, include_typechecking),
            ) {
                (Some(a), Some(b)) => Some(a + b),
                _ => None,
            }
        }
    }
}

/// The raw imports of the statements `body`, in source order.
pub open spec fn body_imports(
    body: Seq<Syntax>,
    current: Seq<char>,
    deep: bool,
    include_typechecking: bool,
) -> Option<Seq<Seq<char>>>
    decreases body.len(),
{
    if body.len() == 0 {
        Some(Seq::<Seq<char>>::empty())
    } else {
        match (
            body_imports(body.drop_last(), current, deep, include_typechecking),
            body.last().imports(current, deep, include_typechecking),
        ) {
            (Some(a), Some(b)) => Some(a + b),
            _ => None,
        }
    }
}


fn matches_import_fn(func: &Callee) -> (r: bool)
    ensures
        r == is_import_fn(*func),
{
    match func {
        Callee::Name(n) => str_eq(n.as_str(), "__import__") || str_eq(n.as_str(), "import_module"),
        Callee::Attribute { object, attr } => (str_eq(object.as_str(), "importlib") && str_eq(
            attr.as_str(),
            "import_module",
        )) || (str_eq(object.as_str(), "builtins") && str_eq(attr.as_str(), "__import__")),
        Callee::Other => false,
    }
}

/// Appends the names as they are.
fn push_names(names: &Vec<String>, out: &mut Vec<String>)
    ensures
        views(final(out)@) == views(old(out)@) + name_views(names@),
{
    let mut i: usize = 0;
    assert(views(out@) =~= views(old(out)@) + name_views(names@).take(0));
    while i < names.len()
        invariant
            i <= names@.len(),
            views(out@) == views(old(out)@) + name_views(names@).take(i as int),
        decreases names@.len() - i,
    {
        let ghost prev = out@;
        out.push(names[i].clone());
        proof {
            lemma_views_push(prev, out@.last());
            assert(name_views(names@).take(i + 1) =~= name_views(names@).take(i as int).push(
                names@[i as int]@,
            ));
            assert(views(out@) =~= views(old(out)@) + name_views(names@).take(i + 1));
        }
        i += 1;
    }
    assert(name_views(names@).take(names@.len() as int) =~= name_views(names@));
}

/// Appends what a from-import stands for; `false` where it reaches above the top of
/// `current`.
fn push_from_import(
    current: &str,
    level: u32,
    module: &Option<String>,
    names: &Vec<String>,
    out: &mut Vec<String>,
) -> (ok: bool)
    ensures
        match from_target(current@, level as nat, crate::moduleref::opt_chars(*module)) {
            Some(t) => ok && views(final(out)@) == views(old(out)@) + with_members(t, names@),
            None => !ok,
        },
{
    let mut target = String::new();
    if level > 0 {
        match try_split_at_depth(current, '.', level as usize) {
            Some(p) => {
                target.append(p.0);
            },
            None => {
                return false;
            },
        }
    }
    match module {
        Some(m) => {
            if !target.as_str().is_empty() {
                push_char(&mut target, '.');
            }
            target.append(m.as_str());
        },
        None => {},
    }
    let ghost t = from_target(current@, level as nat, crate::moduleref::opt_chars(*module))->0;
    assert(target@ =~= t);
    let ghost want = with_members(t, names@);
    let ghost prev = out@;
    out.push(target.clone());
    proof {
        lemma_views_push(prev, out@.last());
        assert(want.take(1) =~= seq![t]);
        assert(views(out@) =~= views(old(out)@) + want.take(1));
    }
    let mut i: usize = 0;
    while i < names.len()
        invariant
            i <= names@.len(),
            target@ == t,
            want == with_members(t, names@),
            views(out@) == views(old(out)@) + want.take(i + 1),
        decreases names@.len() - i,
    {
        let mut member = target.clone();
        push_char(&mut member, '.');
        member.append(names[i].as_str());
        let ghost prev = out@;
        out.push(member);
        proof {
            lemma_views_push(prev, out@.last());
            assert(want[i + 1] == t + seq!['.'] + names@[i as int]@);
            assert(member@ =~= want[i + 1]);
            assert(want.take(i + 2) =~= want.take(i + 1).push(want[i + 1]));
            assert(views(out@) =~= views(old(out)@) + want.take(i + 2));
        }
        i += 1;
    }
    assert(want.take(names@.len() as int + 1) =~= want);
    true
}

/// Appends the raw imports of `node` and of what is below it; `false` where a
/// from-import reaches above the top of `current`.
fn visit(
    node: &Syntax,
    current: &str,
    deep: bool,
    include_typechecking: bool,
    out: &mut Vec<String>,
) -> (ok: bool)
    ensures
        match node.imports(current@, deep, include_typechecking) {
            Some(s) => ok && views(final(out)@) == views(old(out)@) + s,
            None => !ok,
        },
    decreases node,
{
    let ghost start = views(out@);
    let parts: &Vec<Syntax> = match node {
        Syntax::Import { names } => {
            push_names(names, out);
            return true;
        },
        Syntax::ImportFrom { level, module, names } => {
            return push_from_import(current, *level, module, names, out);
        },
        Syntax::Name { id } => {
            if str_eq(id.as_str(), "__import__") {
                let ghost prev = out@;
                out.push(id.clone());
                proof {
                    lemma_views_push(prev, out@.last());
                }
                assert(views(out@) =~= start + seq!["__import__"@]);
            } else {
                assert(views(out@) =~= start + Seq::<Seq<char>>::empty());
            }
            return true;
        },
        Syntax::If { test, parts } => {
            let skip = (str_eq(test.as_str(), "TYPE_CHECKING") || str_eq(
                test.as_str(),
                "typing.TYPE_CHECKING",
            )) && !include_typechecking;
            if !deep || skip {
                assert(views(out@) =~= start + Seq::<Seq<char>>::empty());
                return true;
            }
            parts
        },
        Syntax::Statement { parts } => {
            if !deep {
                assert(views(out@) =~= start + Seq::<Seq<char>>::empty());
                return true;
            }
            parts
        },
        Syntax::Call { func, args, parts } => {
            if matches_import_fn(func) && args.len() == 1 {
                if let Some(a) = &args[0] {
                    let ghost prev = out@;
                    out.push(a.clone());
                    proof {
                        lemma_views_push(prev, out@.last());
                    }
                }
            }
            parts
        },
        Syntax::Expression { parts } => parts,
    };
    let ghost own = node.own_imports(current@)->0;
    assert(views(out@) =~= start + own);
    assert(parts@ == node.parts());
    assert(node.descends(deep, include_typechecking));
    let mut i: usize = 0;
    assert(views(out@) =~= start + own + Seq::<Seq<char>>::empty());
    while i < parts.len()
        invariant
            i <= parts@.len(),
            parts@ == node.parts(),
            node.own_imports(current@) == Some(own),
            node.descends(deep, include_typechecking),
            node.imports_of_parts(current@, deep, include_typechecking, i as nat) is Some,
            views(out@) == start + own + node.imports_of_parts(
                current@,
                deep,
                include_typechecking,
                i as nat,
            )->0,
        decreases parts@.len() - i,
    {
        let ghost before = views(out@);
        let ok = visit(&parts[i], current, deep, include_typechecking, out);
        if !ok {
            proof {
                assert(parts@[i as int].imports(current@, deep, include_typechecking) is None);
                assert(node.imports_of_parts(
                    current@,
                    deep,
                    include_typechecking,
                    (i + 1) as nat,
                ) is None);
                lemma_parts_fail(
                    *node,
                    current@,
                    deep,
                    include_typechecking,
                    (i + 1) as nat,
                    parts@.len(),
                );
            }
            return false;
        }
        proof {
            let a = node.imports_of_parts(current@, deep, include_typechecking, i as nat)->0;
            let b = parts@[i as int].imports(current@, deep, include_typechecking)->0;
            assert(views(out@) =~= start + own + (a + b));
        }
        i += 1;
    }
    proof {
        let below = node.imports_of_parts(
            current@,
            deep,
            include_typechecking,
            parts@.len(),
        )->0;
        assert(start + own + below =~= start + (own + below));
    }
    true
}

proof fn lemma_parts_fail(
    node: Syntax,
    current: Seq<char>,
    deep: bool,
    include_typechecking: bool,
    k: nat,
    n: nat,
)
    requires
        1 <= k <= n <= node.parts().len(),
        node.imports_of_parts(current, deep, include_typechecking, k) is None,
    ensures
        node.imports_of_parts(current, deep, include_typechecking, n) is None,
    decreases n - k,
{
    if k < n {
        lemma_parts_fail(node, current, deep, include_typechecking, k, (n - 1) as nat);
    }
}

/// The raw imports of a source unit with statements `body`, analysed under the import
/// path `module`: of its top-level import statements only, unless `deep`. `None` where
/// a from-import reaches above the top of `module`.
pub fn raw_imports_from_module(
    body: &Vec<Syntax>,
    module: &str,
    deep: bool,
    include_typechecking: bool,
) -> (r: Option<Vec<String>>)
    ensures
        match body_imports(body@, module@, deep, include_typechecking) {
            Some(s) => r is Some && views(r->0@) == s,
            None => r is None,
        },
{
    let mut out: Vec<String> = Vec::new();
    let mut i: usize = 0;
    assert(views(out@) =~= Seq::<Seq<char>>::empty());
    while i < body.len()
        invariant
            i <= body@.len(),
            body_imports(body@.take(i as int), module@, deep, include_typechecking) is Some,
            views(out@) == body_imports(body@.take(i as int), module@, deep, include_typechecking)->0,
        decreases body@.len() - i,
    {
        assert(body@.take(i + 1).drop_last() =~= body@.take(i as int));
        let ok = visit(&body[i], module, deep, include_typechecking, &mut out);
        if !ok {
            proof {
                lemma_body_fail(body@, module@, deep, include_typechecking, (i + 1) as nat);
            }
            return None;
        }
        i += 1;
    }
    assert(body@.take(body@.len() as int) =~= body@);
    Some(out)
}

proof fn lemma_body_fail(
    body: Seq<Syntax>,
    current: Seq<char>,
    deep: bool,
    include_typechecking: bool,
    k: nat,
)
    requires
        k <= body.len(),
        body_imports(body.take(k as int), current, deep, include_typechecking) is None,
    ensures
        body_imports(body, current, deep, include_typechecking) is None,
    decreases body.len() - k,
{
    if k < body.len() {
        assert(body.take(k as int + 1).drop_last() =~= body.take(k as int));
        lemma_body_fail(body, current, deep, include_typechecking, k + 1);
    } else {
        assert(body.take(k as int) =~= body);
    }
}

/// The pattern of the stanza that makes an `__init__.py` a namespace package.
pub const NS_INIT_PATTERN: &'static str =
    "^__path__ *= *__import__ *\\(('pkgutil'|\"pkgutil\")\\).extend_path *\\( *__path__ *, *__name__ *\\)";

/// Whether the regular expression `pattern` has a match in `text` when the search
/// starts at the first character of `text`: anywhere in the text, unless the pattern
/// itself asks for the start, as one that begins with `^` does. `None` where `pattern`
/// is no regular expression.
pub uninterp spec fn regex_match_at_start(pattern: Seq<char>, text: Seq<char>) -> Option<bool>;

/// Trusted: compiles `pattern` with `regex::Regex::new`, which fails on an invalid or
/// oversized pattern, and asks `Regex::is_match_at` for a match that starts the search
/// at offset 0, which is in range for every text.
#[verifier::external_body]
fn regex_is_match_at_start(pattern: &str, text: &str) -> (r: Option<bool>)
    ensures
        r == regex_match_at_start(pattern@, text@),
{
    match regex::Regex::new(pattern) {
        Ok(re) => Some(re.is_match_at(text, 0)),
        Err(_) => None,
    }
}

/// What a match result says of a source text: it holds the stanza only where the
/// pattern compiled and matched.
pub fn stanza_found(matched: Option<bool>) -> (r: bool)
    ensures
        r == (matched == Some(true)),
{
    match matched {
        Some(b) => b,
        None => false,
    }
}

/// Whether `source` begins with the stanza that declares a namespace package.
pub fn content_looks_like_pkgutil_ns_init(source: &str) -> (r: bool)
    ensures
        r == (regex_match_at_start(NS_INIT_PATTERN@, source@) == Some(true)),
{
    stanza_found(regex_is_match_at_start(NS_INIT_PATTERN, source))
}

/// Whether a file named `filepath` with content `source` is the `__init__.py` of a
/// namespace package.
pub fn looks_like_pkgutil_ns_init(filepath: &str, source: &str) -> (r: bool)
    ensures
        r == (has_suffix(filepath@, "__init__.py"@) && regex_match_at_start(
            NS_INIT_PATTERN@,
            source@,
        ) == Some(true)),
{
    ends_with(filepath, "__init__.py") && content_looks_like_pkgutil_ns_init(source)
}

/// Whether the file is a namespace-package `__init__.py`, and its raw imports. A
/// `.pyx` file has neither. `None` where a from-import reaches above the top of
/// `module`.
pub fn raw_get_all_imports(
    filepath: &str,
    source: &str,
    body: &Vec<Syntax>,
    module: &str,
    deep: bool,
    include_typechecking: bool,
) -> (r: Option<(bool, Vec<String>)>)
    ensures
        has_suffix(filepath@, ".pyx"@) ==> match r {
            Some(p) => !p.0 && p.1@.len() == 0,
            None => false,
        },
        !has_suffix(filepath@, ".pyx"@) ==> match (
            r,
            body_imports(body@, module@, deep, include_typechecking),
        ) {
            (Some(p), Some(s)) => views(p.1@) == s && p.0 == (has_suffix(
                filepath@,
                "__init__.py"@,
            ) && regex_match_at_start(NS_INIT_PATTERN@, source@) == Some(true)),
            (None, None) => true,
            _ => false,
        },
{
    if ends_with(filepath, ".pyx") {
        return Some((false, Vec::new()));
    }
    let is_ns = looks_like_pkgutil_ns_init(filepath, source);
    match raw_imports_from_module(body, module, deep, include_typechecking) {
        Some(imports) => Some((is_ns, imports)),
        None => None,
    }
}

} // verus!
