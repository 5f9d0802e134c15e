//! Supported languages, their grammars and function queries, and the leaf
//! token classification that normalization is built on.

use crate::queries::{
    C_QUERY, CLOJURE_QUERY, COMMONLISP_QUERY, CPP_QUERY, CSHARP_QUERY, CSHARP_SHAPE_QUERY,
    ELISP_QUERY, GO_QUERY, JAVASCRIPT_QUERY, JAVA_QUERY, KOTLIN_QUERY, PHP_QUERY, PYTHON_QUERY,
    RUBY_QUERY, RUST_QUERY, SCALA_QUERY, SWIFT_QUERY, TYPESCRIPT_QUERY,
};
use tree_sitter::{Language, Query};
use crate::syntax::{
    SyntaxTree, child_at, child_by_field, first_named_child, kind_is, node_text, nth_child_by_field,
};
use crate::text::{after_last, after_last_index, bytes_eq, contains, contains_bytes};
use crate::text::lemma_after_last_sep;
use vstd::prelude::*;
use vstd::string::StringSliceAdditionalSpecFns;

verus! {

#[derive(Clone, Copy, PartialEq, Eq, Hash, Debug, PartialOrd, Ord, Structural)]
pub enum Lang {
    Typescript,
    Tsx,
    Javascript,
    Python,
    Rust,
    Go,
    Java,
    Ruby,
    Swift,
    C,
    Cpp,
    Php,
    Csharp,
    Kotlin,
    Scala,
    CommonLisp,
    Elisp,
    Clojure,
}

/// Every supported language.
pub const ALL: [Lang; 18] = [
    Lang::Typescript,
    Lang::Tsx,
    Lang::Javascript,
    Lang::Python,
    Lang::Rust,
    Lang::Go,
    Lang::Java,
    Lang::Ruby,
    Lang::Swift,
    Lang::C,
    Lang::Cpp,
    Lang::Php,
    Lang::Csharp,
    Lang::Kotlin,
    Lang::Scala,
    Lang::CommonLisp,
    Lang::Elisp,
    Lang::Clojure,
];

pub const DOT: u8 = 46;

/// The language of a file, by the text after the last `.` of its path.
pub open spec fn spec_lang_for_extension(ext: Seq<u8>) -> Option<Lang> {
    if ext == "ts".spec_bytes() || ext == "mts".spec_bytes() || ext == "cts".spec_bytes() {
        Some(Lang::Typescript)
    } else if ext == "tsx".spec_bytes() {
        Some(Lang::Tsx)
    } else if ext == "js".spec_bytes() || ext == "mjs".spec_bytes() || ext == "cjs".spec_bytes()
        || ext == "jsx".spec_bytes() {
        Some(Lang::Javascript)
    } else if ext == "py".spec_bytes() || ext == "pyi".spec_bytes() {
        Some(Lang::Python)
    } else if ext == "rs".spec_bytes() {
        Some(Lang::Rust)
    } else if ext == "go".spec_bytes() {
        Some(Lang::Go)
    } else if ext == "java".spec_bytes() {
        Some(Lang::Java)
    } else if ext == "rb".spec_bytes() {
        Some(Lang::Ruby)
    } else if ext == "swift".spec_bytes() {
        Some(Lang::Swift)
    } else if ext == "c".spec_bytes() || ext == "h".spec_bytes() {
        Some(Lang::C)
    } else if ext == "cc".spec_bytes() || ext == "cpp".spec_bytes() || ext == "cxx".spec_bytes()
        || ext == "c++".spec_bytes() || ext == "hpp".spec_bytes() || ext == "hh".spec_bytes()
        || ext == "hxx".spec_bytes() {
        Some(Lang::Cpp)
    } else if ext == "php".spec_bytes() {
        Some(Lang::Php)
    } else if ext == "cs".spec_bytes() {
        Some(Lang::Csharp)
    } else if ext == "kt".spec_bytes() || ext == "kts".spec_bytes() {
        Some(Lang::Kotlin)
    } else if ext == "scala".spec_bytes() || ext == "sc".spec_bytes() {
        Some(Lang::Scala)
    } else if ext == "lisp".spec_bytes() || ext == "lsp".spec_bytes() || ext == "asd".spec_bytes() {
        Some(Lang::CommonLisp)
    } else if ext == "el".spec_bytes() {
        Some(Lang::Elisp)
    } else if ext == "clj".spec_bytes() || ext == "cljc".spec_bytes() || ext
        == "cljs".spec_bytes() {
        Some(Lang::Clojure)
    } else {
        None
    }
}

pub open spec fn spec_from_path(path: Seq<u8>) -> Option<Lang> {
    spec_lang_for_extension(after_last(path, DOT))
}

pub open spec fn spec_name(lang: Lang) -> &'static str {
    match lang {
        Lang::Typescript => "TypeScript",
        Lang::Tsx => "TSX",
        Lang::Javascript => "JavaScript",
        Lang::Python => "Python",
        Lang::Rust => "Rust",
        Lang::Go => "Go",
        Lang::Java => "Java",
        Lang::Ruby => "Ruby",
        Lang::Swift => "Swift",
        Lang::C => "C",
        Lang::Cpp => "C++",
        Lang::Php => "Php",
        Lang::Csharp => "C#",
        Lang::Kotlin => "Kotlin",
        Lang::Scala => "Scala",
        Lang::CommonLisp => "Common Lisp",
        Lang::Elisp => "Emacs Lisp",
        Lang::Clojure => "Clojure",
    }
}

fn is_ext(ext: &[u8], lit: &str) -> (r: bool)
    ensures
        r == (ext@ == lit.spec_bytes()),
{
    bytes_eq(ext, lit.as_bytes())
}

impl Lang {
    /// The language of `path`, by the text after its last `.` (the whole
    /// path when it has none); `None` for an unsupported extension.
    #[verifier::rlimit(60)]
    pub fn from_path(path: &str) -> (r: Option<Lang>)
        ensures
            r == spec_from_path(path.spec_bytes()),
    {
        let p = path.as_bytes();
        let start = after_last_index(p, DOT);
        let e = crate::walk::slice_from(p, start);
        if is_ext(e, "ts") || is_ext(e, "mts") || is_ext(e, "cts") {
            Some(Lang::Typescript)
        } else if is_ext(e, "tsx") {
            Some(Lang::Tsx)
        } else if is_ext(e, "js") || is_ext(e, "mjs") || is_ext(e, "cjs") || is_ext(e, "jsx") {
            Some(Lang::Javascript)
        } else if is_ext(e, "py") || is_ext(e, "pyi") {
            Some(Lang::Python)
        } else if is_ext(e, "rs") {
            Some(Lang::Rust)
        } else if is_ext(e, "go") {
            Some(Lang::Go)
        } else if is_ext(e, "java") {
            Some(Lang::Java)
        } else if is_ext(e, "rb") {
            Some(Lang::Ruby)
        } else if is_ext(e, "swift") {
            Some(Lang::Swift)
        } else if is_ext(e, "c") || is_ext(e, "h") {
            Some(Lang::C)
        } else if is_ext(e, "cc") || is_ext(e, "cpp") || is_ext(e, "cxx") || is_ext(e, "c++")
            || is_ext(e, "hpp") || is_ext(e, "hh") || is_ext(e, "hxx") {
            Some(Lang::Cpp)
        } else if is_ext(e, "php") {
            Some(Lang::Php)
        } else if is_ext(e, "cs") {
            Some(Lang::Csharp)
        } else if is_ext(e, "kt") || is_ext(e, "kts") {
            Some(Lang::Kotlin)
        } else if is_ext(e, "scala") || is_ext(e, "sc") {
            Some(Lang::Scala)
        } else if is_ext(e, "lisp") || is_ext(e, "lsp") || is_ext(e, "asd") {
            Some(Lang::CommonLisp)
        } else if is_ext(e, "el") {
            Some(Lang::Elisp)
        } else if is_ext(e, "clj") || is_ext(e, "cljc") || is_ext(e, "cljs") {
            Some(Lang::Clojure)
        } else {
            None
        }
    }

    /// Display name of the language.
    pub fn name(self) -> (r: &'static str)
        ensures
            r == spec_name(self),
    {
        match self {
            Lang::Typescript => "TypeScript",
            Lang::Tsx => "TSX",
            Lang::Javascript => "JavaScript",
            Lang::Python => "Python",
            Lang::Rust => "Rust",
            Lang::Go => "Go",
            Lang::Java => "Java",
            Lang::Ruby => "Ruby",
            Lang::Swift => "Swift",
            Lang::C => "C",
            Lang::Cpp => "C++",
            Lang::Php => "Php",
            Lang::Csharp => "C#",
            Lang::Kotlin => "Kotlin",
            Lang::Scala => "Scala",
            Lang::CommonLisp => "Common Lisp",
            Lang::Elisp => "Emacs Lisp",
            Lang::Clojure => "Clojure",
        }
    }
}

/// What a leaf token contributes to the normalized stream.
#[derive(Clone, Copy, PartialEq, Eq, Debug, Structural)]
pub enum TokenClass {
    /// Identifier-like: folded to one sentinel so renames don't matter.
    Ident,
    /// String/char/template literal parts: folded and run-collapsed.
    Str,
    /// Numeric literal: folded.
    Num,
    /// Comments: dropped entirely.
    Comment,
    /// Structure (keywords, operators, punctuation): kept verbatim by kind id.
    Other,
    /// Operator/special-form/function-call symbol in a grammar too coarse
    /// to give it its own node kind (the Lisp family): kept verbatim by
    /// hashed text.
    Op,
}

/// The text of the head symbol of a Common Lisp `list_lit` (its first
/// `value` child, when that is a `sym_lit`).
pub open spec fn spec_commonlisp_head_text(t: SyntaxTree, list: int, src: Seq<u8>) -> Option<
    Seq<u8>,
> {
    match child_by_field(t, list, "value".spec_bytes()) {
        Some(h) => if kind_is(t, h as int, "sym_lit".spec_bytes()) {
            node_text(t, h as int, src)
        } else {
            None
        },
        None => None,
    }
}

pub open spec fn text_in(o: Option<Seq<u8>>, a: &str, b: &str) -> bool {
    o == Some(a.spec_bytes()) || o == Some(b.spec_bytes())
}

/// `pair` names a local in a Common Lisp binding form: the second value of
/// a `dolist`/`dotimes`, or a pair in the bindings list of a
/// `let`/`let*`/`do`/`do*`/`flet`/`labels`.
pub open spec fn spec_commonlisp_binding_name(t: SyntaxTree, pair: int, src: Seq<u8>) -> bool {
    match t.nodes@[pair].parent {
        None => false,
        Some(parent) => {
            if !kind_is(t, parent as int, "list_lit".spec_bytes()) {
                false
            } else if nth_child_by_field(t, parent as int, "value".spec_bytes(), 1) == Some(
                pair as usize,
            ) && text_in(spec_commonlisp_head_text(t, parent as int, src), "dolist", "dotimes") {
                true
            } else {
                match t.nodes@[parent as int].parent {
                    None => false,
                    Some(form) => {
                        let head = spec_commonlisp_head_text(t, form as int, src);
                        kind_is(t, form as int, "list_lit".spec_bytes()) && nth_child_by_field(
                            t,
                            form as int,
                            "value".spec_bytes(),
                            1,
                        ) == Some(parent) && (text_in(head, "let", "let*") || text_in(
                            head,
                            "do",
                            "do*",
                        ) || text_in(head, "flet", "labels"))
                    },
                }
            }
        },
    }
}

/// `sym` heads a Common Lisp `list_lit` form that is a call, not a
/// parameter list or a binding.
pub open spec fn spec_commonlisp_call_head(t: SyntaxTree, sym: int, src: Seq<u8>) -> bool {
    match t.nodes@[sym].parent {
        None => false,
        Some(list) => {
            &&& kind_is(t, list as int, "list_lit".spec_bytes())
            &&& child_by_field(t, list as int, "value".spec_bytes()) == Some(sym as usize)
            &&& !(match t.nodes@[list as int].parent {
                Some(g) => kind_is(t, g as int, "defun_header".spec_bytes()),
                None => false,
            })
            &&& !spec_commonlisp_binding_name(t, list as int, src)
        },
    }
}

/// `list` is the parameter list of an Emacs Lisp `defun` or `defmacro`.
pub open spec fn spec_elisp_definition_parameters(t: SyntaxTree, list: int) -> bool {
    match t.nodes@[list].parent {
        None => false,
        Some(p) => (kind_is(t, p as int, "function_definition".spec_bytes()) || kind_is(
            t,
            p as int,
            "macro_definition".spec_bytes(),
        )) && child_by_field(t, p as int, "parameters".spec_bytes()) == Some(list as usize),
    }
}

pub open spec fn second_child_kind_in(t: SyntaxTree, p: int, a: &str, b: &str) -> bool {
    match child_at(t, p, 1) {
        Some(k) => kind_is(t, k as int, a.spec_bytes()) || kind_is(t, k as int, b.spec_bytes()),
        None => false,
    }
}

/// `pair` is an Emacs Lisp `let`/`let*` binding pair or a `lambda`'s
/// parameter list.
pub open spec fn spec_elisp_binding_name(t: SyntaxTree, pair: int) -> bool {
    match t.nodes@[pair].parent {
        None => false,
        Some(parent) => if kind_is(t, parent as int, "special_form".spec_bytes()) {
            first_named_child(t, parent as int) == Some(pair as usize) && second_child_kind_in(
                t,
                parent as int,
                "lambda",
                "lambda",
            )
        } else if kind_is(t, parent as int, "list".spec_bytes()) {
            match t.nodes@[parent as int].parent {
                None => false,
                Some(form) => kind_is(t, form as int, "special_form".spec_bytes())
                    && first_named_child(t, form as int) == Some(parent) && second_child_kind_in(
                    t,
                    form as int,
                    "let",
                    "let*",
                ),
            }
        } else {
            false
        },
    }
}

/// `sym` heads an Emacs Lisp `list` form that is a call.
pub open spec fn spec_elisp_call_head(t: SyntaxTree, sym: int) -> bool {
    match t.nodes@[sym].parent {
        None => false,
        Some(list) => {
            &&& kind_is(t, list as int, "list".spec_bytes())
            &&& first_named_child(t, list as int) == Some(sym as usize)
            &&& !spec_elisp_definition_parameters(t, list as int)
            &&& !spec_elisp_binding_name(t, list as int)
        },
    }
}

/// `name` (a `sym_name`) belongs to the symbol heading a Clojure `list_lit`.
pub open spec fn spec_clojure_call_head(t: SyntaxTree, name: int) -> bool {
    match t.nodes@[name].parent {
        None => false,
        Some(sym) => match t.nodes@[sym as int].parent {
            None => false,
            Some(list) => kind_is(t, list as int, "list_lit".spec_bytes()) && child_by_field(
                t,
                list as int,
                "value".spec_bytes(),
            ) == Some(sym),
        },
    }
}

pub open spec fn is_str_kind(k: Seq<u8>) -> bool {
    ||| contains(k, "string".spec_bytes())
    ||| contains(k, "char".spec_bytes())
    ||| contains(k, "rune".spec_bytes())
    ||| k == "escape_sequence".spec_bytes()
    ||| k == "template_chars".spec_bytes()
    ||| k == "str_lit".spec_bytes()
    ||| k == "kwd_symbol".spec_bytes()
    ||| k == "kwd_name".spec_bytes()
    ||| k == "\"".spec_bytes()
    ||| k == "'".spec_bytes()
    ||| k == "`".spec_bytes()
}

pub open spec fn is_num_kind(k: Seq<u8>) -> bool {
    ||| contains(k, "number".spec_bytes())
    ||| contains(k, "integer".spec_bytes())
    ||| contains(k, "float".spec_bytes())
    ||| contains(k, "decimal".spec_bytes())
    ||| contains(k, "imaginary".spec_bytes())
    ||| k == "int_literal".spec_bytes()
    ||| k == "num_lit".spec_bytes()
}

/// The class of leaf `i`, by its kind and, in the Lisp family, by its
/// position.
pub open spec fn spec_classify(t: SyntaxTree, i: int, src: Seq<u8>) -> TokenClass {
    let k = t.nodes@[i].kind@;
    if contains(k, "comment".spec_bytes()) {
        TokenClass::Comment
    } else if k == "sym_lit".spec_bytes() {
        if spec_commonlisp_call_head(t, i, src) {
            TokenClass::Op
        } else {
            TokenClass::Ident
        }
    } else if k == "symbol".spec_bytes() {
        if spec_elisp_call_head(t, i) {
            TokenClass::Op
        } else {
            TokenClass::Ident
        }
    } else if k == "sym_name".spec_bytes() {
        if spec_clojure_call_head(t, i) {
            TokenClass::Op
        } else {
            TokenClass::Ident
        }
    } else if contains(k, "identifier".spec_bytes()) || k
        == "shorthand_property_identifier_pattern".spec_bytes() {
        TokenClass::Ident
    } else if is_str_kind(k) {
        TokenClass::Str
    } else if is_num_kind(k) {
        TokenClass::Num
    } else {
        TokenClass::Other
    }
}

fn commonlisp_list_head_text<'a>(t: &SyntaxTree, list: usize, src: &'a [u8]) -> (r: Option<
    &'a [u8],
>)
    requires
        t.wf(),
        list < t.nodes@.len(),
    ensures
        match r {
            Some(b) => spec_commonlisp_head_text(*t, list as int, src@) == Some(b@),
            None => spec_commonlisp_head_text(*t, list as int, src@) is None,
        },
{
    let head = match t.child_by_field_name(list, "value".as_bytes()) {
        Some(h) => h,
        None => return None,
    };
    if !t.kind_is(head, "sym_lit".as_bytes()) {
        return None;
    }
    t.text(head, src)
}

fn head_text_in(o: Option<&[u8]>, a: &str, b: &str) -> (r: bool)
    ensures
        r == text_in(
            match o {
                Some(x) => Some(x@),
                None => None,
            },
            a,
            b,
        ),
{
    match o {
        Some(x) => bytes_eq(x, a.as_bytes()) || bytes_eq(x, b.as_bytes()),
        None => false,
    }
}

fn is_commonlisp_binding_name(t: &SyntaxTree, pair: usize, src: &[u8]) -> (r: bool)
    requires
        t.wf(),
        pair < t.nodes@.len(),
    ensures
        r == spec_commonlisp_binding_name(*t, pair as int, src@),
{
    proof {
        t.lemma_node(pair as int);
    }
    let parent = match t.nodes[pair].parent {
        Some(p) => p,
        None => return false,
    };
    proof {
        t.lemma_node(parent as int);
    }
    if !t.kind_is(parent, "list_lit".as_bytes()) {
        return false;
    }
    if t.nth_child_by_field_name(parent, "value".as_bytes(), 1) == Some(pair) && head_text_in(
        commonlisp_list_head_text(t, parent, src),
        "dolist",
        "dotimes",
    ) {
        return true;
    }
    let form = match t.nodes[parent].parent {
        Some(f) => f,
        None => return false,
    };
    if !t.kind_is(form, "list_lit".as_bytes()) {
        return false;
    }
    if t.nth_child_by_field_name(form, "value".as_bytes(), 1) != Some(parent) {
        return false;
    }
    let head = commonlisp_list_head_text(t, form, src);
    head_text_in(head, "let", "let*") || head_text_in(head, "do", "do*") || head_text_in(
        head,
        "flet",
        "labels",
    )
}

fn is_commonlisp_call_head(t: &SyntaxTree, sym: usize, src: &[u8]) -> (r: bool)
    requires
        t.wf(),
        sym < t.nodes@.len(),
    ensures
        r == spec_commonlisp_call_head(*t, sym as int, src@),
{
    proof {
        t.lemma_node(sym as int);
    }
    let list = match t.nodes[sym].parent {
        Some(l) => l,
        None => return false,
    };
    proof {
        t.lemma_node(list as int);
    }
    if !t.kind_is(list, "list_lit".as_bytes()) {
        return false;
    }
    if t.child_by_field_name(list, "value".as_bytes()) != Some(sym) {
        return false;
    }
    match t.nodes[list].parent {
        Some(g) => {
            if t.kind_is(g, "defun_header".as_bytes()) {
                return false;
            }
        },
        None => {},
    }
    !is_commonlisp_binding_name(t, list, src)
}

fn is_elisp_definition_parameters(t: &SyntaxTree, list: usize) -> (r: bool)
    requires
        t.wf(),
        list < t.nodes@.len(),
    ensures
        r == spec_elisp_definition_parameters(*t, list as int),
{
    proof {
        t.lemma_node(list as int);
    }
    match t.nodes[list].parent {
        None => false,
        Some(p) => {
            (t.kind_is(p, "function_definition".as_bytes()) || t.kind_is(
                p,
                "macro_definition".as_bytes(),
            )) && t.child_by_field_name(p, "parameters".as_bytes()) == Some(list)
        },
    }
}

fn second_child_kind_is(t: &SyntaxTree, p: usize, a: &str, b: &str) -> (r: bool)
    requires
        t.wf(),
        p < t.nodes@.len(),
    ensures
        r == second_child_kind_in(*t, p as int, a, b),
{
    match t.child(p, 1) {
        Some(k) => t.kind_is(k, a.as_bytes()) || t.kind_is(k, b.as_bytes()),
        None => false,
    }
}

fn is_elisp_binding_name(t: &SyntaxTree, pair: usize) -> (r: bool)
    requires
        t.wf(),
        pair < t.nodes@.len(),
    ensures
        r == spec_elisp_binding_name(*t, pair as int),
{
    proof {
        t.lemma_node(pair as int);
    }
    let parent = match t.nodes[pair].parent {
        Some(p) => p,
        None => return false,
    };
    proof {
        t.lemma_node(parent as int);
    }
    if t.kind_is(parent, "special_form".as_bytes()) {
        t.first_named_child(parent) == Some(pair) && second_child_kind_is(
            t,
            parent,
            "lambda",
            "lambda",
        )
    } else if t.kind_is(parent, "list".as_bytes()) {
        match t.nodes[parent].parent {
            None => false,
            Some(form) => {
                t.kind_is(form, "special_form".as_bytes()) && t.first_named_child(form) == Some(
                    parent,
                ) && second_child_kind_is(t, form, "let", "let*")
            },
        }
    } else {
        false
    }
}

fn is_elisp_call_head(t: &SyntaxTree, sym: usize) -> (r: bool)
    requires
        t.wf(),
        sym < t.nodes@.len(),
    ensures
        r == spec_elisp_call_head(*t, sym as int),
{
    proof {
        t.lemma_node(sym as int);
    }
    let list = match t.nodes[sym].parent {
        Some(l) => l,
        None => return false,
    };
    t.kind_is(list, "list".as_bytes()) && t.first_named_child(list) == Some(sym)
        && !is_elisp_definition_parameters(t, list) && !is_elisp_binding_name(t, list)
}

fn is_clojure_call_head(t: &SyntaxTree, name: usize) -> (r: bool)
    requires
        t.wf(),
        name < t.nodes@.len(),
    ensures
        r == spec_clojure_call_head(*t, name as int),
{
    proof {
        t.lemma_node(name as int);
    }
    let sym = match t.nodes[name].parent {
        Some(s) => s,
        None => return false,
    };
    proof {
        t.lemma_node(sym as int);
    }
    let list = match t.nodes[sym].parent {
        Some(l) => l,
        None => return false,
    };
    t.kind_is(list, "list_lit".as_bytes()) && t.child_by_field_name(list, "value".as_bytes())
        == Some(sym)
}

fn is_str_kind_exec(k: &[u8]) -> (r: bool)
    ensures
        r == is_str_kind(k@),
{
    contains_bytes(k, "string".as_bytes()) || contains_bytes(k, "char".as_bytes())
        || contains_bytes(k, "rune".as_bytes()) || bytes_eq(k, "escape_sequence".as_bytes())
        || bytes_eq(k, "template_chars".as_bytes()) || bytes_eq(k, "str_lit".as_bytes())
        || bytes_eq(k, "kwd_symbol".as_bytes()) || bytes_eq(k, "kwd_name".as_bytes()) || bytes_eq(
        k,
        "\"".as_bytes(),
    ) || bytes_eq(k, "'".as_bytes()) || bytes_eq(k, "`".as_bytes())
}

fn is_num_kind_exec(k: &[u8]) -> (r: bool)
    ensures
        r == is_num_kind(k@),
{
    contains_bytes(k, "number".as_bytes()) || contains_bytes(k, "integer".as_bytes())
        || contains_bytes(k, "float".as_bytes()) || contains_bytes(k, "decimal".as_bytes())
        || contains_bytes(k, "imaginary".as_bytes()) || bytes_eq(k, "int_literal".as_bytes())
        || bytes_eq(k, "num_lit".as_bytes())
}

/// Classifies leaf `i` of `t` (`src` is the file's bytes): comments,
/// identifiers, string and number literals by their kind names, and in the
/// Lisp family a symbol heading a call form as an operator.
pub fn classify(t: &SyntaxTree, i: usize, src: &[u8]) -> (r: TokenClass)
    requires
        t.wf(),
        i < t.nodes@.len(),
    ensures
        r == spec_classify(*t, i as int, src@),
{
    let k = t.nodes[i].kind.as_slice();
    if contains_bytes(k, "comment".as_bytes()) {
        TokenClass::Comment
    } else if bytes_eq(k, "sym_lit".as_bytes()) {
        if is_commonlisp_call_head(t, i, src) {
            TokenClass::Op
        } else {
            TokenClass::Ident
        }
    } else if bytes_eq(k, "symbol".as_bytes()) {
        if is_elisp_call_head(t, i) {
            TokenClass::Op
        } else {
            TokenClass::Ident
        }
    } else if bytes_eq(k, "sym_name".as_bytes()) {
        if is_clojure_call_head(t, i) {
            TokenClass::Op
        } else {
            TokenClass::Ident
        }
    } else if contains_bytes(k, "identifier".as_bytes()) || bytes_eq(
        k,
        "shorthand_property_identifier_pattern".as_bytes(),
    ) {
        TokenClass::Ident
    } else if is_str_kind_exec(k) {
        TokenClass::Str
    } else if is_num_kind_exec(k) {
        TokenClass::Num
    } else {
        TokenClass::Other
    }
}

#[verifier::external_type_specification]
#[verifier::external_body]
pub struct ExQuery(tree_sitter::Query);

/// `tree_sitter_typescript::LANGUAGE_TYPESCRIPT`, the TypeScript grammar, labelled with `Lang::Typescript`: the
/// contract claims only the label, which the body pairs with that grammar.
#[verifier::external_body]
fn grammar_typescript() -> (g: Grammar)
    ensures
        g@ == Lang::Typescript,
{
    Grammar { lang: Lang::Typescript, language: tree_sitter_typescript::LANGUAGE_TYPESCRIPT.into() }
}

/// `tree_sitter_typescript::LANGUAGE_TSX`, the TSX grammar, labelled with `Lang::Tsx`: the
/// contract claims only the label, which the body pairs with that grammar.
#[verifier::external_body]
fn grammar_tsx() -> (g: Grammar)
    ensures
        g@ == Lang::Tsx,
{
    Grammar { lang: Lang::Tsx, language: tree_sitter_typescript::LANGUAGE_TSX.into() }
}

/// `tree_sitter_javascript::LANGUAGE`, the JavaScript grammar, labelled with `Lang::Javascript`: the
/// contract claims only the label, which the body pairs with that grammar.
#[verifier::external_body]
fn grammar_javascript() -> (g: Grammar)
    ensures
        g@ == Lang::Javascript,
{
    Grammar { lang: Lang::Javascript, language: tree_sitter_javascript::LANGUAGE.into() }
}

/// `tree_sitter_python::LANGUAGE`, the Python grammar, labelled with `Lang::Python`: the
/// contract claims only the label, which the body pairs with that grammar.
#[verifier::external_body]
fn grammar_python() -> (g: Grammar)
    ensures
        g@ == Lang::Python,
{
    Grammar { lang: Lang::Python, language: tree_sitter_python::LANGUAGE.into() }
}

/// `tree_sitter_rust::LANGUAGE`, the Rust grammar, labelled with `Lang::Rust`: the
/// contract claims only the label, which the body pairs with that grammar.
#[verifier::external_body]
fn grammar_rust() -> (g: Grammar)
    ensures
        g@ == Lang::Rust,
{
    Grammar { lang: Lang::Rust, language: tree_sitter_rust::LANGUAGE.into() }
}

/// `tree_sitter_go::LANGUAGE`, the Go grammar, labelled with `Lang::Go`: the
/// contract claims only the label, which the body pairs with that grammar.
#[verifier::external_body]
fn grammar_go() -> (g: Grammar)
    ensures
        g@ == Lang::Go,
{
    Grammar { lang: Lang::Go, language: tree_sitter_go::LANGUAGE.into() }
}

/// `tree_sitter_java::LANGUAGE`, the Java grammar, labelled with `Lang::Java`: the
/// contract claims only the label, which the body pairs with that grammar.
#[verifier::external_body]
fn grammar_java() -> (g: Grammar)
    ensures
        g@ == Lang::Java,
{
    Grammar { lang: Lang::Java, language: tree_sitter_java::LANGUAGE.into() }
}

/// `tree_sitter_ruby::LANGUAGE`, the Ruby grammar, labelled with `Lang::Ruby`: the
/// contract claims only the label, which the body pairs with that grammar.
#[verifier::external_body]
fn grammar_ruby() -> (g: Grammar)
    ensures
        g@ == Lang::Ruby,
{
    Grammar { lang: Lang::Ruby, language: tree_sitter_ruby::LANGUAGE.into() }
}

/// `tree_sitter_swift::LANGUAGE`, the Swift grammar, labelled with `Lang::Swift`: the
/// contract claims only the label, which the body pairs with that grammar.
#[verifier::external_body]
fn grammar_swift() -> (g: Grammar)
    ensures
        g@ == Lang::Swift,
{
    Grammar { lang: Lang::Swift, language: tree_sitter_swift::LANGUAGE.into() }
}

/// `tree_sitter_c::LANGUAGE`, the C grammar, labelled with `Lang::C`: the
/// contract claims only the label, which the body pairs with that grammar.
#[verifier::external_body]
fn grammar_c() -> (g: Grammar)
    ensures
        g@ == Lang::C,
{
    Grammar { lang: Lang::C, language: tree_sitter_c::LANGUAGE.into() }
}

/// `tree_sitter_cpp::LANGUAGE`, the C++ grammar, labelled with `Lang::Cpp`: the
/// contract claims only the label, which the body pairs with that grammar.
#[verifier::external_body]
fn grammar_cpp() -> (g: Grammar)
    ensures
        g@ == Lang::Cpp,
{
    Grammar { lang: Lang::Cpp, language: tree_sitter_cpp::LANGUAGE.into() }
}

/// `tree_sitter_php::LANGUAGE_PHP`, the PHP grammar, labelled with `Lang::Php`: the
/// contract claims only the label, which the body pairs with that grammar.
#[verifier::external_body]
fn grammar_php() -> (g: Grammar)
    ensures
        g@ == Lang::Php,
{
    Grammar { lang: Lang::Php, language: tree_sitter_php::LANGUAGE_PHP.into() }
}

/// `tree_sitter_c_sharp::LANGUAGE`, the C# grammar, labelled with `Lang::Csharp`: the
/// contract claims only the label, which the body pairs with that grammar.
#[verifier::external_body]
fn grammar_csharp() -> (g: Grammar)
    ensures
        g@ == Lang::Csharp,
{
    Grammar { lang: Lang::Csharp, language: tree_sitter_c_sharp::LANGUAGE.into() }
}

/// `tree_sitter_kotlin_ng::LANGUAGE`, the Kotlin grammar, labelled with `Lang::Kotlin`: the
/// contract claims only the label, which the body pairs with that grammar.
#[verifier::external_body]
fn grammar_kotlin() -> (g: Grammar)
    ensures
        g@ == Lang::Kotlin,
{
    Grammar { lang: Lang::Kotlin, language: tree_sitter_kotlin_ng::LANGUAGE.into() }
}

/// `tree_sitter_scala::LANGUAGE`, the Scala grammar, labelled with `Lang::Scala`: the
/// contract claims only the label, which the body pairs with that grammar.
#[verifier::external_body]
fn grammar_scala() -> (g: Grammar)
    ensures
        g@ == Lang::Scala,
{
    Grammar { lang: Lang::Scala, language: tree_sitter_scala::LANGUAGE.into() }
}

/// `tree_sitter_commonlisp::LANGUAGE_COMMONLISP`, the Common Lisp grammar, labelled with `Lang::CommonLisp`: the
/// contract claims only the label, which the body pairs with that grammar.
#[verifier::external_body]
fn grammar_commonlisp() -> (g: Grammar)
    ensures
        g@ == Lang::CommonLisp,
{
    Grammar { lang: Lang::CommonLisp, language: tree_sitter_commonlisp::LANGUAGE_COMMONLISP.into() }
}

/// `tree_sitter_elisp::LANGUAGE`, the Emacs Lisp grammar, labelled with `Lang::Elisp`: the
/// contract claims only the label, which the body pairs with that grammar.
#[verifier::external_body]
fn grammar_elisp() -> (g: Grammar)
    ensures
        g@ == Lang::Elisp,
{
    Grammar { lang: Lang::Elisp, language: tree_sitter_elisp::LANGUAGE.into() }
}

/// `tree_sitter_clojure_orchard::LANGUAGE`, the Clojure grammar, labelled with `Lang::Clojure`: the
/// contract claims only the label, which the body pairs with that grammar.
#[verifier::external_body]
fn grammar_clojure() -> (g: Grammar)
    ensures
        g@ == Lang::Clojure,
{
    Grammar { lang: Lang::Clojure, language: tree_sitter_clojure_orchard::LANGUAGE.into() }
}

/// The grammar of one language, tied to that language: only the grammar
/// constructors below build one (its fields are not visible outside the
/// crate), each pairing a label with that language's grammar.
pub struct Grammar {
    pub(crate) lang: Lang,
    pub(crate) language: Language,
}

impl View for Grammar {
    type V = Lang;

    closed spec fn view(&self) -> Lang {
        self.lang
    }
}

/// A query compiled against a language's grammar, tied to that language
/// and to its source text: only `compile_query` builds one (its fields are
/// not visible outside the crate).
pub struct CompiledQuery {
    pub(crate) lang: Lang,
    pub(crate) source: &'static str,
    pub(crate) query: Query,
}

impl View for CompiledQuery {
    type V = (Lang, Seq<char>);

    closed spec fn view(&self) -> (Lang, Seq<char>) {
        (self.lang, self.source@)
    }
}

/// Whether tree-sitter compiles query `source` against `lang`'s grammar.
pub uninterp spec fn query_compiles(lang: Lang, source: Seq<char>) -> bool;

/// The index of the capture called `name` in query `source` compiled for
/// `lang`.
pub uninterp spec fn capture_index_of(lang: Lang, source: Seq<char>, name: Seq<char>) -> Option<u32>;

/// `tree_sitter::Query::new`: compiles `source` against the grammar; `None`
/// when tree-sitter rejects it. Compiling is a function of the grammar and
/// the text alone, so the outcome is named; the query is kept with both.
#[verifier::external_body]
fn compile_query(g: &Grammar, source: &'static str) -> (r: Option<CompiledQuery>)
    ensures
        r is Some <==> query_compiles(g@, source@),
        r matches Some(q) ==> q@ == (g@, source@),
{
    match Query::new(&g.language, source) {
        Ok(query) => Some(CompiledQuery { lang: g.lang, source, query }),
        Err(_) => None,
    }
}

/// `Query::capture_index_for_name`: the index of the capture called `name`
/// in the query, if it has one; a function of the query's language and
/// text and of `name`, so it is named.
#[verifier::external_body]
pub(crate) fn ts_capture_index(q: &CompiledQuery, name: &str) -> (r: Option<u32>)
    ensures
        r == capture_index_of(q@.0, q@.1, name@),
{
    q.query.capture_index_for_name(name)
}

/// The function query of each language (TSX shares TypeScript's).
pub open spec fn spec_query_source(lang: Lang) -> &'static str {
    match lang {
        Lang::Typescript | Lang::Tsx => TYPESCRIPT_QUERY,
        Lang::Javascript => JAVASCRIPT_QUERY,
        Lang::Python => PYTHON_QUERY,
        Lang::Rust => RUST_QUERY,
        Lang::Go => GO_QUERY,
        Lang::Java => JAVA_QUERY,
        Lang::Ruby => RUBY_QUERY,
        Lang::Swift => SWIFT_QUERY,
        Lang::C => C_QUERY,
        Lang::Cpp => CPP_QUERY,
        Lang::Php => PHP_QUERY,
        Lang::Csharp => CSHARP_QUERY,
        Lang::Kotlin => KOTLIN_QUERY,
        Lang::Scala => SCALA_QUERY,
        Lang::CommonLisp => COMMONLISP_QUERY,
        Lang::Elisp => ELISP_QUERY,
        Lang::Clojure => CLOJURE_QUERY,
    }
}

impl Lang {
    /// The grammar of the language, tied to it.
    pub fn grammar(self) -> (g: Grammar)
        ensures
            g@ == self,
    {
        match self {
            Lang::Php => grammar_php(),
            Lang::Typescript => grammar_typescript(),
            Lang::Tsx => grammar_tsx(),
            Lang::Javascript => grammar_javascript(),
            Lang::Python => grammar_python(),
            Lang::Rust => grammar_rust(),
            Lang::Go => grammar_go(),
            Lang::Java => grammar_java(),
            Lang::Ruby => grammar_ruby(),
            Lang::Swift => grammar_swift(),
            Lang::C => grammar_c(),
            Lang::Cpp => grammar_cpp(),
            Lang::Csharp => grammar_csharp(),
            Lang::Kotlin => grammar_kotlin(),
            Lang::Scala => grammar_scala(),
            Lang::CommonLisp => grammar_commonlisp(),
            Lang::Elisp => grammar_elisp(),
            Lang::Clojure => grammar_clojure(),
        }
    }

    /// The query that finds the language's functions: `@func` the whole
    /// function, `@name` its name, `@body` the part that is compared.
    pub fn query_source(self) -> (r: &'static str)
        ensures
            r == spec_query_source(self),
    {
        match self {
            Lang::Typescript | Lang::Tsx => TYPESCRIPT_QUERY,
            Lang::Javascript => JAVASCRIPT_QUERY,
            Lang::Python => PYTHON_QUERY,
            Lang::Rust => RUST_QUERY,
            Lang::Go => GO_QUERY,
            Lang::Java => JAVA_QUERY,
            Lang::Ruby => RUBY_QUERY,
            Lang::Swift => SWIFT_QUERY,
            Lang::C => C_QUERY,
            Lang::Cpp => CPP_QUERY,
            Lang::Php => PHP_QUERY,
            Lang::Csharp => CSHARP_QUERY,
            Lang::Kotlin => KOTLIN_QUERY,
            Lang::Scala => SCALA_QUERY,
            Lang::CommonLisp => COMMONLISP_QUERY,
            Lang::Elisp => ELISP_QUERY,
            Lang::Clojure => CLOJURE_QUERY,
        }
    }

    /// The tree-sitter grammar of the language.
    pub fn language(self) -> Language {
        self.grammar().language
    }

    /// The compiled function query, or `None` when tree-sitter rejects it.
    pub fn query(self) -> (r: Option<CompiledQuery>)
        ensures
            r is Some <==> query_compiles(self, spec_query_source(self)@),
            r matches Some(q) ==> q@ == (self, spec_query_source(self)@),
    {
        compile_query(&self.grammar(), self.query_source())
    }

    /// Experimental: the query capturing type declarations for the opt-in
    /// "class shape" mode. Only C# has one.
    pub fn shape_query_source(self) -> (r: Option<&'static str>)
        ensures
            r == (if self == Lang::Csharp {
                Some(CSHARP_SHAPE_QUERY)
            } else {
                None
            }),
    {
        match self {
            Lang::Csharp => Some(CSHARP_SHAPE_QUERY),
            _ => None,
        }
    }

    /// The compiled shape query; `None` for languages without one (and when
    /// tree-sitter rejects it).
    pub fn shape_query(self) -> (r: Option<CompiledQuery>)
        ensures
            r is Some <==> self == Lang::Csharp && query_compiles(self, CSHARP_SHAPE_QUERY@),
            r matches Some(q) ==> q@ == (self, CSHARP_SHAPE_QUERY@),
    {
        match self.shape_query_source() {
            Some(src) => compile_query(&self.grammar(), src),
            None => None,
        }
    }
}

/// The bytes of the supported extensions.
proof fn lemma_extension_bytes()
    ensures
        "ts".spec_bytes().len() == 2 && "ts".spec_bytes()[0] == 116 && "ts".spec_bytes()[1] == 115,
        "mts".spec_bytes().len() == 3 && "mts".spec_bytes()[0] == 109 && "mts".spec_bytes()[1] == 116 && "mts".spec_bytes()[2] == 115,
        "cts".spec_bytes().len() == 3 && "cts".spec_bytes()[0] == 99 && "cts".spec_bytes()[1] == 116 && "cts".spec_bytes()[2] == 115,
        "tsx".spec_bytes().len() == 3 && "tsx".spec_bytes()[0] == 116 && "tsx".spec_bytes()[1] == 115 && "tsx".spec_bytes()[2] == 120,
        "js".spec_bytes().len() == 2 && "js".spec_bytes()[0] == 106 && "js".spec_bytes()[1] == 115,
        "mjs".spec_bytes().len() == 3 && "mjs".spec_bytes()[0] == 109 && "mjs".spec_bytes()[1] == 106 && "mjs".spec_bytes()[2] == 115,
        "cjs".spec_bytes().len() == 3 && "cjs".spec_bytes()[0] == 99 && "cjs".spec_bytes()[1] == 106 && "cjs".spec_bytes()[2] == 115,
        "jsx".spec_bytes().len() == 3 && "jsx".spec_bytes()[0] == 106 && "jsx".spec_bytes()[1] == 115 && "jsx".spec_bytes()[2] == 120,
        "py".spec_bytes().len() == 2 && "py".spec_bytes()[0] == 112 && "py".spec_bytes()[1] == 121,
        "pyi".spec_bytes().len() == 3 && "pyi".spec_bytes()[0] == 112 && "pyi".spec_bytes()[1] == 121 && "pyi".spec_bytes()[2] == 105,
        "rs".spec_bytes().len() == 2 && "rs".spec_bytes()[0] == 114 && "rs".spec_bytes()[1] == 115,
        "go".spec_bytes().len() == 2 && "go".spec_bytes()[0] == 103 && "go".spec_bytes()[1] == 111,
        "java".spec_bytes().len() == 4 && "java".spec_bytes()[0] == 106 && "java".spec_bytes()[1] == 97 && "java".spec_bytes()[2] == 118 && "java".spec_bytes()[3] == 97,
        "rb".spec_bytes().len() == 2 && "rb".spec_bytes()[0] == 114 && "rb".spec_bytes()[1] == 98,
        "swift".spec_bytes().len() == 5 && "swift".spec_bytes()[0] == 115 && "swift".spec_bytes()[1] == 119 && "swift".spec_bytes()[2] == 105 && "swift".spec_bytes()[3] == 102 && "swift".spec_bytes()[4] == 116,
        "c".spec_bytes().len() == 1 && "c".spec_bytes()[0] == 99,
        "h".spec_bytes().len() == 1 && "h".spec_bytes()[0] == 104,
        "cc".spec_bytes().len() == 2 && "cc".spec_bytes()[0] == 99 && "cc".spec_bytes()[1] == 99,
        "cpp".spec_bytes().len() == 3 && "cpp".spec_bytes()[0] == 99 && "cpp".spec_bytes()[1] == 112 && "cpp".spec_bytes()[2] == 112,
        "cxx".spec_bytes().len() == 3 && "cxx".spec_bytes()[0] == 99 && "cxx".spec_bytes()[1] == 120 && "cxx".spec_bytes()[2] == 120,
        "c++".spec_bytes().len() == 3 && "c++".spec_bytes()[0] == 99 && "c++".spec_bytes()[1] == 43 && "c++".spec_bytes()[2] == 43,
        "hpp".spec_bytes().len() == 3 && "hpp".spec_bytes()[0] == 104 && "hpp".spec_bytes()[1] == 112 && "hpp".spec_bytes()[2] == 112,
        "hh".spec_bytes().len() == 2 && "hh".spec_bytes()[0] == 104 && "hh".spec_bytes()[1] == 104,
        "hxx".spec_bytes().len() == 3 && "hxx".spec_bytes()[0] == 104 && "hxx".spec_bytes()[1] == 120 && "hxx".spec_bytes()[2] == 120,
        "php".spec_bytes().len() == 3 && "php".spec_bytes()[0] == 112 && "php".spec_bytes()[1] == 104 && "php".spec_bytes()[2] == 112,
        "cs".spec_bytes().len() == 2 && "cs".spec_bytes()[0] == 99 && "cs".spec_bytes()[1] == 115,
        "kt".spec_bytes().len() == 2 && "kt".spec_bytes()[0] == 107 && "kt".spec_bytes()[1] == 116,
        "kts".spec_bytes().len() == 3 && "kts".spec_bytes()[0] == 107 && "kts".spec_bytes()[1] == 116 && "kts".spec_bytes()[2] == 115,
        "scala".spec_bytes().len() == 5 && "scala".spec_bytes()[0] == 115 && "scala".spec_bytes()[1] == 99 && "scala".spec_bytes()[2] == 97 && "scala".spec_bytes()[3] == 108 && "scala".spec_bytes()[4] == 97,
        "sc".spec_bytes().len() == 2 && "sc".spec_bytes()[0] == 115 && "sc".spec_bytes()[1] == 99,
        "lisp".spec_bytes().len() == 4 && "lisp".spec_bytes()[0] == 108 && "lisp".spec_bytes()[1] == 105 && "lisp".spec_bytes()[2] == 115 && "lisp".spec_bytes()[3] == 112,
        "lsp".spec_bytes().len() == 3 && "lsp".spec_bytes()[0] == 108 && "lsp".spec_bytes()[1] == 115 && "lsp".spec_bytes()[2] == 112,
        "asd".spec_bytes().len() == 3 && "asd".spec_bytes()[0] == 97 && "asd".spec_bytes()[1] == 115 && "asd".spec_bytes()[2] == 100,
        "el".spec_bytes().len() == 2 && "el".spec_bytes()[0] == 101 && "el".spec_bytes()[1] == 108,
        "clj".spec_bytes().len() == 3 && "clj".spec_bytes()[0] == 99 && "clj".spec_bytes()[1] == 108 && "clj".spec_bytes()[2] == 106,
        "cljc".spec_bytes().len() == 4 && "cljc".spec_bytes()[0] == 99 && "cljc".spec_bytes()[1] == 108 && "cljc".spec_bytes()[2] == 106 && "cljc".spec_bytes()[3] == 99,
        "cljs".spec_bytes().len() == 4 && "cljs".spec_bytes()[0] == 99 && "cljs".spec_bytes()[1] == 108 && "cljs".spec_bytes()[2] == 106 && "cljs".spec_bytes()[3] == 115,
{
    reveal_strlit("ts");
    crate::text::lemma_ascii_bytes("ts");
    reveal_strlit("mts");
    crate::text::lemma_ascii_bytes("mts");
    reveal_strlit("cts");
    crate::text::lemma_ascii_bytes("cts");
    reveal_strlit("tsx");
    crate::text::lemma_ascii_bytes("tsx");
    reveal_strlit("js");
    crate::text::lemma_ascii_bytes("js");
    reveal_strlit("mjs");
    crate::text::lemma_ascii_bytes("mjs");
    reveal_strlit("cjs");
    crate::text::lemma_ascii_bytes("cjs");
    reveal_strlit("jsx");
    crate::text::lemma_ascii_bytes("jsx");
    reveal_strlit("py");
    crate::text::lemma_ascii_bytes("py");
    reveal_strlit("pyi");
    crate::text::lemma_ascii_bytes("pyi");
    reveal_strlit("rs");
    crate::text::lemma_ascii_bytes("rs");
    reveal_strlit("go");
    crate::text::lemma_ascii_bytes("go");
    reveal_strlit("java");
    crate::text::lemma_ascii_bytes("java");
    reveal_strlit("rb");
    crate::text::lemma_ascii_bytes("rb");
    reveal_strlit("swift");
    crate::text::lemma_ascii_bytes("swift");
    reveal_strlit("c");
    crate::text::lemma_ascii_bytes("c");
    reveal_strlit("h");
    crate::text::lemma_ascii_bytes("h");
    reveal_strlit("cc");
    crate::text::lemma_ascii_bytes("cc");
    reveal_strlit("cpp");
    crate::text::lemma_ascii_bytes("cpp");
    reveal_strlit("cxx");
    crate::text::lemma_ascii_bytes("cxx");
    reveal_strlit("c++");
    crate::text::lemma_ascii_bytes("c++");
    reveal_strlit("hpp");
    crate::text::lemma_ascii_bytes("hpp");
    reveal_strlit("hh");
    crate::text::lemma_ascii_bytes("hh");
    reveal_strlit("hxx");
    crate::text::lemma_ascii_bytes("hxx");
    reveal_strlit("php");
    crate::text::lemma_ascii_bytes("php");
    reveal_strlit("cs");
    crate::text::lemma_ascii_bytes("cs");
    reveal_strlit("kt");
    crate::text::lemma_ascii_bytes("kt");
    reveal_strlit("kts");
    crate::text::lemma_ascii_bytes("kts");
    reveal_strlit("scala");
    crate::text::lemma_ascii_bytes("scala");
    reveal_strlit("sc");
    crate::text::lemma_ascii_bytes("sc");
    reveal_strlit("lisp");
    crate::text::lemma_ascii_bytes("lisp");
    reveal_strlit("lsp");
    crate::text::lemma_ascii_bytes("lsp");
    reveal_strlit("asd");
    crate::text::lemma_ascii_bytes("asd");
    reveal_strlit("el");
    crate::text::lemma_ascii_bytes("el");
    reveal_strlit("clj");
    crate::text::lemma_ascii_bytes("clj");
    reveal_strlit("cljc");
    crate::text::lemma_ascii_bytes("cljc");
    reveal_strlit("cljs");
    crate::text::lemma_ascii_bytes("cljs");
}

/// Each supported extension's entry in the table.
proof fn lemma_extension_table()
    ensures
        spec_lang_for_extension("ts".spec_bytes()) == Some(Lang::Typescript),
        spec_lang_for_extension("mts".spec_bytes()) == Some(Lang::Typescript),
        spec_lang_for_extension("cts".spec_bytes()) == Some(Lang::Typescript),
        spec_lang_for_extension("tsx".spec_bytes()) == Some(Lang::Tsx),
        spec_lang_for_extension("js".spec_bytes()) == Some(Lang::Javascript),
        spec_lang_for_extension("mjs".spec_bytes()) == Some(Lang::Javascript),
        spec_lang_for_extension("cjs".spec_bytes()) == Some(Lang::Javascript),
        spec_lang_for_extension("jsx".spec_bytes()) == Some(Lang::Javascript),
        spec_lang_for_extension("py".spec_bytes()) == Some(Lang::Python),
        spec_lang_for_extension("pyi".spec_bytes()) == Some(Lang::Python),
        spec_lang_for_extension("rs".spec_bytes()) == Some(Lang::Rust),
        spec_lang_for_extension("go".spec_bytes()) == Some(Lang::Go),
        spec_lang_for_extension("java".spec_bytes()) == Some(Lang::Java),
        spec_lang_for_extension("rb".spec_bytes()) == Some(Lang::Ruby),
        spec_lang_for_extension("swift".spec_bytes()) == Some(Lang::Swift),
        spec_lang_for_extension("c".spec_bytes()) == Some(Lang::C),
        spec_lang_for_extension("h".spec_bytes()) == Some(Lang::C),
        spec_lang_for_extension("cc".spec_bytes()) == Some(Lang::Cpp),
        spec_lang_for_extension("cpp".spec_bytes()) == Some(Lang::Cpp),
        spec_lang_for_extension("cxx".spec_bytes()) == Some(Lang::Cpp),
        spec_lang_for_extension("c++".spec_bytes()) == Some(Lang::Cpp),
        spec_lang_for_extension("hpp".spec_bytes()) == Some(Lang::Cpp),
        spec_lang_for_extension("hh".spec_bytes()) == Some(Lang::Cpp),
        spec_lang_for_extension("hxx".spec_bytes()) == Some(Lang::Cpp),
        spec_lang_for_extension("php".spec_bytes()) == Some(Lang::Php),
        spec_lang_for_extension("cs".spec_bytes()) == Some(Lang::Csharp),
        spec_lang_for_extension("kt".spec_bytes()) == Some(Lang::Kotlin),
        spec_lang_for_extension("kts".spec_bytes()) == Some(Lang::Kotlin),
        spec_lang_for_extension("scala".spec_bytes()) == Some(Lang::Scala),
        spec_lang_for_extension("sc".spec_bytes()) == Some(Lang::Scala),
        spec_lang_for_extension("lisp".spec_bytes()) == Some(Lang::CommonLisp),
        spec_lang_for_extension("lsp".spec_bytes()) == Some(Lang::CommonLisp),
        spec_lang_for_extension("asd".spec_bytes()) == Some(Lang::CommonLisp),
        spec_lang_for_extension("el".spec_bytes()) == Some(Lang::Elisp),
        spec_lang_for_extension("clj".spec_bytes()) == Some(Lang::Clojure),
        spec_lang_for_extension("cljc".spec_bytes()) == Some(Lang::Clojure),
        spec_lang_for_extension("cljs".spec_bytes()) == Some(Lang::Clojure),
{
    lemma_extension_table_typescript();
    lemma_extension_table_tsx();
    lemma_extension_table_javascript();
    lemma_extension_table_python();
    lemma_extension_table_rust();
    lemma_extension_table_go();
    lemma_extension_table_java();
    lemma_extension_table_ruby();
    lemma_extension_table_swift();
    lemma_extension_table_c();
    lemma_extension_table_cpp();
    lemma_extension_table_php();
    lemma_extension_table_csharp();
    lemma_extension_table_kotlin();
    lemma_extension_table_scala();
    lemma_extension_table_commonlisp();
    lemma_extension_table_elisp();
    lemma_extension_table_clojure();
}

proof fn lemma_extension_table_typescript()
    ensures
        spec_lang_for_extension("ts".spec_bytes()) == Some(Lang::Typescript),
        spec_lang_for_extension("mts".spec_bytes()) == Some(Lang::Typescript),
        spec_lang_for_extension("cts".spec_bytes()) == Some(Lang::Typescript),
{
    lemma_extension_bytes();
}

proof fn lemma_extension_table_tsx()
    ensures
        spec_lang_for_extension("tsx".spec_bytes()) == Some(Lang::Tsx),
{
    lemma_extension_bytes();
}

proof fn lemma_extension_table_javascript()
    ensures
        spec_lang_for_extension("js".spec_bytes()) == Some(Lang::Javascript),
        spec_lang_for_extension("mjs".spec_bytes()) == Some(Lang::Javascript),
        spec_lang_for_extension("cjs".spec_bytes()) == Some(Lang::Javascript),
        spec_lang_for_extension("jsx".spec_bytes()) == Some(Lang::Javascript),
{
    lemma_extension_bytes();
}

proof fn lemma_extension_table_python()
    ensures
        spec_lang_for_extension("py".spec_bytes()) == Some(Lang::Python),
        spec_lang_for_extension("pyi".spec_bytes()) == Some(Lang::Python),
{
    lemma_extension_bytes();
}

proof fn lemma_extension_table_rust()
    ensures
        spec_lang_for_extension("rs".spec_bytes()) == Some(Lang::Rust),
{
    lemma_extension_bytes();
}

proof fn lemma_extension_table_go()
    ensures
        spec_lang_for_extension("go".spec_bytes()) == Some(Lang::Go),
{
    lemma_extension_bytes();
}

proof fn lemma_extension_table_java()
    ensures
        spec_lang_for_extension("java".spec_bytes()) == Some(Lang::Java),
{
    lemma_extension_bytes();
}

proof fn lemma_extension_table_ruby()
    ensures
        spec_lang_for_extension("rb".spec_bytes()) == Some(Lang::Ruby),
{
    lemma_extension_bytes();
}

proof fn lemma_extension_table_swift()
    ensures
        spec_lang_for_extension("swift".spec_bytes()) == Some(Lang::Swift),
{
    lemma_extension_bytes();
}

proof fn lemma_extension_table_c()
    ensures
        spec_lang_for_extension("c".spec_bytes()) == Some(Lang::C),
        spec_lang_for_extension("h".spec_bytes()) == Some(Lang::C),
{
    lemma_extension_bytes();
}

proof fn lemma_extension_table_cpp()
    ensures
        spec_lang_for_extension("cc".spec_bytes()) == Some(Lang::Cpp),
        spec_lang_for_extension("cpp".spec_bytes()) == Some(Lang::Cpp),
        spec_lang_for_extension("cxx".spec_bytes()) == Some(Lang::Cpp),
        spec_lang_for_extension("c++".spec_bytes()) == Some(Lang::Cpp),
        spec_lang_for_extension("hpp".spec_bytes()) == Some(Lang::Cpp),
        spec_lang_for_extension("hh".spec_bytes()) == Some(Lang::Cpp),
        spec_lang_for_extension("hxx".spec_bytes()) == Some(Lang::Cpp),
{
    lemma_extension_bytes();
}

proof fn lemma_extension_table_php()
    ensures
        spec_lang_for_extension("php".spec_bytes()) == Some(Lang::Php),
{
    lemma_extension_bytes();
}

proof fn lemma_extension_table_csharp()
    ensures
        spec_lang_for_extension("cs".spec_bytes()) == Some(Lang::Csharp),
{
    lemma_extension_bytes();
}

proof fn lemma_extension_table_kotlin()
    ensures
        spec_lang_for_extension("kt".spec_bytes()) == Some(Lang::Kotlin),
        spec_lang_for_extension("kts".spec_bytes()) == Some(Lang::Kotlin),
{
    lemma_extension_bytes();
}

proof fn lemma_extension_table_scala()
    ensures
        spec_lang_for_extension("scala".spec_bytes()) == Some(Lang::Scala),
        spec_lang_for_extension("sc".spec_bytes()) == Some(Lang::Scala),
{
    lemma_extension_bytes();
}

proof fn lemma_extension_table_commonlisp()
    ensures
        spec_lang_for_extension("lisp".spec_bytes()) == Some(Lang::CommonLisp),
        spec_lang_for_extension("lsp".spec_bytes()) == Some(Lang::CommonLisp),
        spec_lang_for_extension("asd".spec_bytes()) == Some(Lang::CommonLisp),
{
    lemma_extension_bytes();
}

proof fn lemma_extension_table_elisp()
    ensures
        spec_lang_for_extension("el".spec_bytes()) == Some(Lang::Elisp),
{
    lemma_extension_bytes();
}

proof fn lemma_extension_table_clojure()
    ensures
        spec_lang_for_extension("clj".spec_bytes()) == Some(Lang::Clojure),
        spec_lang_for_extension("cljc".spec_bytes()) == Some(Lang::Clojure),
        spec_lang_for_extension("cljs".spec_bytes()) == Some(Lang::Clojure),
{
    lemma_extension_bytes();
}

proof fn lemma_paths_typescript(p: Seq<u8>)
    ensures
        spec_from_path(p + seq![DOT] + "ts".spec_bytes()) == Some(Lang::Typescript),
        spec_from_path(p + seq![DOT] + "mts".spec_bytes()) == Some(Lang::Typescript),
        spec_from_path(p + seq![DOT] + "cts".spec_bytes()) == Some(Lang::Typescript),
{
    lemma_extension_bytes();
    lemma_extension_table_typescript();
    assert forall|i: int| 0 <= i < "ts".spec_bytes().len() implies "ts".spec_bytes()[i] != DOT by {}
    lemma_after_last_sep(p, DOT, "ts".spec_bytes());
    assert forall|i: int| 0 <= i < "mts".spec_bytes().len() implies "mts".spec_bytes()[i] != DOT by {}
    lemma_after_last_sep(p, DOT, "mts".spec_bytes());
    assert forall|i: int| 0 <= i < "cts".spec_bytes().len() implies "cts".spec_bytes()[i] != DOT by {}
    lemma_after_last_sep(p, DOT, "cts".spec_bytes());
}

proof fn lemma_paths_tsx(p: Seq<u8>)
    ensures
        spec_from_path(p + seq![DOT] + "tsx".spec_bytes()) == Some(Lang::Tsx),
{
    lemma_extension_bytes();
    lemma_extension_table_tsx();
    assert forall|i: int| 0 <= i < "tsx".spec_bytes().len() implies "tsx".spec_bytes()[i] != DOT by {}
    lemma_after_last_sep(p, DOT, "tsx".spec_bytes());
}

proof fn lemma_paths_javascript(p: Seq<u8>)
    ensures
        spec_from_path(p + seq![DOT] + "js".spec_bytes()) == Some(Lang::Javascript),
        spec_from_path(p + seq![DOT] + "mjs".spec_bytes()) == Some(Lang::Javascript),
        spec_from_path(p + seq![DOT] + "cjs".spec_bytes()) == Some(Lang::Javascript),
        spec_from_path(p + seq![DOT] + "jsx".spec_bytes()) == Some(Lang::Javascript),
{
    lemma_extension_bytes();
    lemma_extension_table_javascript();
    assert forall|i: int| 0 <= i < "js".spec_bytes().len() implies "js".spec_bytes()[i] != DOT by {}
    lemma_after_last_sep(p, DOT, "js".spec_bytes());
    assert forall|i: int| 0 <= i < "mjs".spec_bytes().len() implies "mjs".spec_bytes()[i] != DOT by {}
    lemma_after_last_sep(p, DOT, "mjs".spec_bytes());
    assert forall|i: int| 0 <= i < "cjs".spec_bytes().len() implies "cjs".spec_bytes()[i] != DOT by {}
    lemma_after_last_sep(p, DOT, "cjs".spec_bytes());
    assert forall|i: int| 0 <= i < "jsx".spec_bytes().len() implies "jsx".spec_bytes()[i] != DOT by {}
    lemma_after_last_sep(p, DOT, "jsx".spec_bytes());
}

proof fn lemma_paths_python(p: Seq<u8>)
    ensures
        spec_from_path(p + seq![DOT] + "py".spec_bytes()) == Some(Lang::Python),
        spec_from_path(p + seq![DOT] + "pyi".spec_bytes()) == Some(Lang::Python),
{
    lemma_extension_bytes();
    lemma_extension_table_python();
    assert forall|i: int| 0 <= i < "py".spec_bytes().len() implies "py".spec_bytes()[i] != DOT by {}
    lemma_after_last_sep(p, DOT, "py".spec_bytes());
    assert forall|i: int| 0 <= i < "pyi".spec_bytes().len() implies "pyi".spec_bytes()[i] != DOT by {}
    lemma_after_last_sep(p, DOT, "pyi".spec_bytes());
}

proof fn lemma_paths_rust(p: Seq<u8>)
    ensures
        spec_from_path(p + seq![DOT] + "rs".spec_bytes()) == Some(Lang::Rust),
{
    lemma_extension_bytes();
    lemma_extension_table_rust();
    assert forall|i: int| 0 <= i < "rs".spec_bytes().len() implies "rs".spec_bytes()[i] != DOT by {}
    lemma_after_last_sep(p, DOT, "rs".spec_bytes());
}

proof fn lemma_paths_go(p: Seq<u8>)
    ensures
        spec_from_path(p + seq![DOT] + "go".spec_bytes()) == Some(Lang::Go),
{
    lemma_extension_bytes();
    lemma_extension_table_go();
    assert forall|i: int| 0 <= i < "go".spec_bytes().len() implies "go".spec_bytes()[i] != DOT by {}
    lemma_after_last_sep(p, DOT, "go".spec_bytes());
}

proof fn lemma_paths_java(p: Seq<u8>)
    ensures
        spec_from_path(p + seq![DOT] + "java".spec_bytes()) == Some(Lang::Java),
{
    lemma_extension_bytes();
    lemma_extension_table_java();
    assert forall|i: int| 0 <= i < "java".spec_bytes().len() implies "java".spec_bytes()[i] != DOT by {}
    lemma_after_last_sep(p, DOT, "java".spec_bytes());
}

proof fn lemma_paths_ruby(p: Seq<u8>)
    ensures
        spec_from_path(p + seq![DOT] + "rb".spec_bytes()) == Some(Lang::Ruby),
{
    lemma_extension_bytes();
    lemma_extension_table_ruby();
    assert forall|i: int| 0 <= i < "rb".spec_bytes().len() implies "rb".spec_bytes()[i] != DOT by {}
    lemma_after_last_sep(p, DOT, "rb".spec_bytes());
}

proof fn lemma_paths_swift(p: Seq<u8>)
    ensures
        spec_from_path(p + seq![DOT] + "swift".spec_bytes()) == Some(Lang::Swift),
{
    lemma_extension_bytes();
    lemma_extension_table_swift();
    assert forall|i: int| 0 <= i < "swift".spec_bytes().len() implies "swift".spec_bytes()[i] != DOT by {}
    lemma_after_last_sep(p, DOT, "swift".spec_bytes());
}

proof fn lemma_paths_c(p: Seq<u8>)
    ensures
        spec_from_path(p + seq![DOT] + "c".spec_bytes()) == Some(Lang::C),
        spec_from_path(p + seq![DOT] + "h".spec_bytes()) == Some(Lang::C),
{
    lemma_extension_bytes();
    lemma_extension_table_c();
    assert forall|i: int| 0 <= i < "c".spec_bytes().len() implies "c".spec_bytes()[i] != DOT by {}
    lemma_after_last_sep(p, DOT, "c".spec_bytes());
    assert forall|i: int| 0 <= i < "h".spec_bytes().len() implies "h".spec_bytes()[i] != DOT by {}
    lemma_after_last_sep(p, DOT, "h".spec_bytes());
}

proof fn lemma_paths_cpp(p: Seq<u8>)
    ensures
        spec_from_path(p + seq![DOT] + "cc".spec_bytes()) == Some(Lang::Cpp),
        spec_from_path(p + seq![DOT] + "cpp".spec_bytes()) == Some(Lang::Cpp),
        spec_from_path(p + seq![DOT] + "cxx".spec_bytes()) == Some(Lang::Cpp),
        spec_from_path(p + seq![DOT] + "c++".spec_bytes()) == Some(Lang::Cpp),
        spec_from_path(p + seq![DOT] + "hpp".spec_bytes()) == Some(Lang::Cpp),
        spec_from_path(p + seq![DOT] + "hh".spec_bytes()) == Some(Lang::Cpp),
        spec_from_path(p + seq![DOT] + "hxx".spec_bytes()) == Some(Lang::Cpp),
{
    lemma_extension_bytes();
    lemma_extension_table_cpp();
    assert forall|i: int| 0 <= i < "cc".spec_bytes().len() implies "cc".spec_bytes()[i] != DOT by {}
    lemma_after_last_sep(p, DOT, "cc".spec_bytes());
    assert forall|i: int| 0 <= i < "cpp".spec_bytes().len() implies "cpp".spec_bytes()[i] != DOT by {}
    lemma_after_last_sep(p, DOT, "cpp".spec_bytes());
    assert forall|i: int| 0 <= i < "cxx".spec_bytes().len() implies "cxx".spec_bytes()[i] != DOT by {}
    lemma_after_last_sep(p, DOT, "cxx".spec_bytes());
    assert forall|i: int| 0 <= i < "c++".spec_bytes().len() implies "c++".spec_bytes()[i] != DOT by {}
    lemma_after_last_sep(p, DOT, "c++".spec_bytes());
    assert forall|i: int| 0 <= i < "hpp".spec_bytes().len() implies "hpp".spec_bytes()[i] != DOT by {}
    lemma_after_last_sep(p, DOT, "hpp".spec_bytes());
    assert forall|i: int| 0 <= i < "hh".spec_bytes().len() implies "hh".spec_bytes()[i] != DOT by {}
    lemma_after_last_sep(p, DOT, "hh".spec_bytes());
    assert forall|i: int| 0 <= i < "hxx".spec_bytes().len() implies "hxx".spec_bytes()[i] != DOT by {}
    lemma_after_last_sep(p, DOT, "hxx".spec_bytes());
}

proof fn lemma_paths_php(p: Seq<u8>)
    ensures
        spec_from_path(p + seq![DOT] + "php".spec_bytes()) == Some(Lang::Php),
{
    lemma_extension_bytes();
    lemma_extension_table_php();
    assert forall|i: int| 0 <= i < "php".spec_bytes().len() implies "php".spec_bytes()[i] != DOT by {}
    lemma_after_last_sep(p, DOT, "php".spec_bytes());
}

proof fn lemma_paths_csharp(p: Seq<u8>)
    ensures
        spec_from_path(p + seq![DOT] + "cs".spec_bytes()) == Some(Lang::Csharp),
{
    lemma_extension_bytes();
    lemma_extension_table_csharp();
    assert forall|i: int| 0 <= i < "cs".spec_bytes().len() implies "cs".spec_bytes()[i] != DOT by {}
    lemma_after_last_sep(p, DOT, "cs".spec_bytes());
}

proof fn lemma_paths_kotlin(p: Seq<u8>)
    ensures
        spec_from_path(p + seq![DOT] + "kt".spec_bytes()) == Some(Lang::Kotlin),
        spec_from_path(p + seq![DOT] + "kts".spec_bytes()) == Some(Lang::Kotlin),
{
    lemma_extension_bytes();
    lemma_extension_table_kotlin();
    assert forall|i: int| 0 <= i < "kt".spec_bytes().len() implies "kt".spec_bytes()[i] != DOT by {}
    lemma_after_last_sep(p, DOT, "kt".spec_bytes());
    assert forall|i: int| 0 <= i < "kts".spec_bytes().len() implies "kts".spec_bytes()[i] != DOT by {}
    lemma_after_last_sep(p, DOT, "kts".spec_bytes());
}

proof fn lemma_paths_scala(p: Seq<u8>)
    ensures
        spec_from_path(p + seq![DOT] + "scala".spec_bytes()) == Some(Lang::Scala),
        spec_from_path(p + seq![DOT] + "sc".spec_bytes()) == Some(Lang::Scala),
{
    lemma_extension_bytes();
    lemma_extension_table_scala();
    assert forall|i: int| 0 <= i < "scala".spec_bytes().len() implies "scala".spec_bytes()[i] != DOT by {}
    lemma_after_last_sep(p, DOT, "scala".spec_bytes());
    assert forall|i: int| 0 <= i < "sc".spec_bytes().len() implies "sc".spec_bytes()[i] != DOT by {}
    lemma_after_last_sep(p, DOT, "sc".spec_bytes());
}

proof fn lemma_paths_commonlisp(p: Seq<u8>)
    ensures
        spec_from_path(p + seq![DOT] + "lisp".spec_bytes()) == Some(Lang::CommonLisp),
        spec_from_path(p + seq![DOT] + "lsp".spec_bytes()) == Some(Lang::CommonLisp),
        spec_from_path(p + seq![DOT] + "asd".spec_bytes()) == Some(Lang::CommonLisp),
{
    lemma_extension_bytes();
    lemma_extension_table_commonlisp();
    assert forall|i: int| 0 <= i < "lisp".spec_bytes().len() implies "lisp".spec_bytes()[i] != DOT by {}
    lemma_after_last_sep(p, DOT, "lisp".spec_bytes());
    assert forall|i: int| 0 <= i < "lsp".spec_bytes().len() implies "lsp".spec_bytes()[i] != DOT by {}
    lemma_after_last_sep(p, DOT, "lsp".spec_bytes());
    assert forall|i: int| 0 <= i < "asd".spec_bytes().len() implies "asd".spec_bytes()[i] != DOT by {}
    lemma_after_last_sep(p, DOT, "asd".spec_bytes());
}

proof fn lemma_paths_elisp(p: Seq<u8>)
    ensures
        spec_from_path(p + seq![DOT] + "el".spec_bytes()) == Some(Lang::Elisp),
{
    lemma_extension_bytes();
    lemma_extension_table_elisp();
    assert forall|i: int| 0 <= i < "el".spec_bytes().len() implies "el".spec_bytes()[i] != DOT by {}
    lemma_after_last_sep(p, DOT, "el".spec_bytes());
}

proof fn lemma_paths_clojure(p: Seq<u8>)
    ensures
        spec_from_path(p + seq![DOT] + "clj".spec_bytes()) == Some(Lang::Clojure),
        spec_from_path(p + seq![DOT] + "cljc".spec_bytes()) == Some(Lang::Clojure),
        spec_from_path(p + seq![DOT] + "cljs".spec_bytes()) == Some(Lang::Clojure),
{
    lemma_extension_bytes();
    lemma_extension_table_clojure();
    assert forall|i: int| 0 <= i < "clj".spec_bytes().len() implies "clj".spec_bytes()[i] != DOT by {}
    lemma_after_last_sep(p, DOT, "clj".spec_bytes());
    assert forall|i: int| 0 <= i < "cljc".spec_bytes().len() implies "cljc".spec_bytes()[i] != DOT by {}
    lemma_after_last_sep(p, DOT, "cljc".spec_bytes());
    assert forall|i: int| 0 <= i < "cljs".spec_bytes().len() implies "cljs".spec_bytes()[i] != DOT by {}
    lemma_after_last_sep(p, DOT, "cljs".spec_bytes());
}

/// Every extension the tool supports names its language, whatever path
/// comes before its last `.`: `.ts`, `.mts`, `.cts` TypeScript; `.tsx` TSX;
/// `.js`, `.mjs`, `.cjs`, `.jsx` JavaScript; `.py`, `.pyi` Python; `.rs`
/// Rust; `.go` Go; `.java` Java; `.rb` Ruby; `.swift` Swift; `.c`, `.h` C;
/// `.cc`, `.cpp`, `.cxx`, `.c++`, `.hpp`, `.hh`, `.hxx` C++; `.php` PHP;
/// `.cs` C#; `.kt`, `.kts` Kotlin; `.scala`, `.sc` Scala; `.lisp`, `.lsp`,
/// `.asd` Common Lisp; `.el` Emacs Lisp; `.clj`, `.cljc`, `.cljs` Clojure.
pub proof fn law_supported_extensions(p: Seq<u8>)
    ensures
        spec_from_path(p + seq![DOT] + "ts".spec_bytes()) == Some(Lang::Typescript),
        spec_from_path(p + seq![DOT] + "mts".spec_bytes()) == Some(Lang::Typescript),
        spec_from_path(p + seq![DOT] + "cts".spec_bytes()) == Some(Lang::Typescript),
        spec_from_path(p + seq![DOT] + "tsx".spec_bytes()) == Some(Lang::Tsx),
        spec_from_path(p + seq![DOT] + "js".spec_bytes()) == Some(Lang::Javascript),
        spec_from_path(p + seq![DOT] + "mjs".spec_bytes()) == Some(Lang::Javascript),
        spec_from_path(p + seq![DOT] + "cjs".spec_bytes()) == Some(Lang::Javascript),
        spec_from_path(p + seq![DOT] + "jsx".spec_bytes()) == Some(Lang::Javascript),
        spec_from_path(p + seq![DOT] + "py".spec_bytes()) == Some(Lang::Python),
        spec_from_path(p + seq![DOT] + "pyi".spec_bytes()) == Some(Lang::Python),
        spec_from_path(p + seq![DOT] + "rs".spec_bytes()) == Some(Lang::Rust),
        spec_from_path(p + seq![DOT] + "go".spec_bytes()) == Some(Lang::Go),
        spec_from_path(p + seq![DOT] + "java".spec_bytes()) == Some(Lang::Java),
        spec_from_path(p + seq![DOT] + "rb".spec_bytes()) == Some(Lang::Ruby),
        spec_from_path(p + seq![DOT] + "swift".spec_bytes()) == Some(Lang::Swift),
        spec_from_path(p + seq![DOT] + "c".spec_bytes()) == Some(Lang::C),
        spec_from_path(p + seq![DOT] + "h".spec_bytes()) == Some(Lang::C),
        spec_from_path(p + seq![DOT] + "cc".spec_bytes()) == Some(Lang::Cpp),
        spec_from_path(p + seq![DOT] + "cpp".spec_bytes()) == Some(Lang::Cpp),
        spec_from_path(p + seq![DOT] + "cxx".spec_bytes()) == Some(Lang::Cpp),
        spec_from_path(p + seq![DOT] + "c++".spec_bytes()) == Some(Lang::Cpp),
        spec_from_path(p + seq![DOT] + "hpp".spec_bytes()) == Some(Lang::Cpp),
        spec_from_path(p + seq![DOT] + "hh".spec_bytes()) == Some(Lang::Cpp),
        spec_from_path(p + seq![DOT] + "hxx".spec_bytes()) == Some(Lang::Cpp),
        spec_from_path(p + seq![DOT] + "php".spec_bytes()) == Some(Lang::Php),
        spec_from_path(p + seq![DOT] + "cs".spec_bytes()) == Some(Lang::Csharp),
        spec_from_path(p + seq![DOT] + "kt".spec_bytes()) == Some(Lang::Kotlin),
        spec_from_path(p + seq![DOT] + "kts".spec_bytes()) == Some(Lang::Kotlin),
        spec_from_path(p + seq![DOT] + "scala".spec_bytes()) == Some(Lang::Scala),
        spec_from_path(p + seq![DOT] + "sc".spec_bytes()) == Some(Lang::Scala),
        spec_from_path(p + seq![DOT] + "lisp".spec_bytes()) == Some(Lang::CommonLisp),
        spec_from_path(p + seq![DOT] + "lsp".spec_bytes()) == Some(Lang::CommonLisp),
        spec_from_path(p + seq![DOT] + "asd".spec_bytes()) == Some(Lang::CommonLisp),
        spec_from_path(p + seq![DOT] + "el".spec_bytes()) == Some(Lang::Elisp),
        spec_from_path(p + seq![DOT] + "clj".spec_bytes()) == Some(Lang::Clojure),
        spec_from_path(p + seq![DOT] + "cljc".spec_bytes()) == Some(Lang::Clojure),
        spec_from_path(p + seq![DOT] + "cljs".spec_bytes()) == Some(Lang::Clojure),
{
    lemma_paths_typescript(p);
    lemma_paths_tsx(p);
    lemma_paths_javascript(p);
    lemma_paths_python(p);
    lemma_paths_rust(p);
    lemma_paths_go(p);
    lemma_paths_java(p);
    lemma_paths_ruby(p);
    lemma_paths_swift(p);
    lemma_paths_c(p);
    lemma_paths_cpp(p);
    lemma_paths_php(p);
    lemma_paths_csharp(p);
    lemma_paths_kotlin(p);
    lemma_paths_scala(p);
    lemma_paths_commonlisp(p);
    lemma_paths_elisp(p);
    lemma_paths_clojure(p);
}

} // verus!
