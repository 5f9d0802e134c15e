//! The tree-sitter queries that find each language's functions (and, for
//! C#, its type declarations). Each match captures `@func` (the whole
//! definition), `@name` and `@body`.

use vstd::prelude::*;

verus! {

pub const TYPESCRIPT_QUERY: &'static str = r#"
(function_declaration name: (identifier) @name body: (statement_block) @body) @func
(generator_function_declaration name: (identifier) @name body: (statement_block) @body) @func
(method_definition name: (_) @name body: (statement_block) @body) @func
(variable_declarator name: (identifier) @name value: (arrow_function body: (_) @body)) @func
(variable_declarator name: (identifier) @name value: (function_expression body: (statement_block) @body)) @func
"#;

pub const JAVASCRIPT_QUERY: &'static str = r#"
(function_declaration name: (identifier) @name body: (statement_block) @body) @func
(generator_function_declaration name: (identifier) @name body: (statement_block) @body) @func
(method_definition name: (_) @name body: (statement_block) @body) @func
(variable_declarator name: (identifier) @name value: (arrow_function body: (_) @body)) @func
(variable_declarator name: (identifier) @name value: (function_expression body: (statement_block) @body)) @func
"#;

pub const PYTHON_QUERY: &'static str = r#"
(function_definition name: (identifier) @name body: (block) @body) @func
"#;

pub const RUST_QUERY: &'static str = r#"
(function_item name: (identifier) @name body: (block) @body) @func
"#;

pub const GO_QUERY: &'static str = r#"
(function_declaration name: (identifier) @name body: (block) @body) @func
(method_declaration name: (field_identifier) @name body: (block) @body) @func
"#;

pub const JAVA_QUERY: &'static str = r#"
(method_declaration name: (identifier) @name body: (block) @body) @func
(constructor_declaration name: (identifier) @name body: (constructor_body) @body) @func
"#;

pub const RUBY_QUERY: &'static str = r#"
(method name: (_) @name body: (body_statement) @body) @func
(singleton_method name: (_) @name body: (body_statement) @body) @func
"#;

pub const SWIFT_QUERY: &'static str = r#"
(function_declaration name: (simple_identifier) @name body: (function_body) @body) @func
"#;

pub const C_QUERY: &'static str = r#"
(function_definition declarator: (function_declarator declarator: (identifier) @name) body: (compound_statement) @body) @func
(function_definition declarator: (pointer_declarator declarator: (function_declarator declarator: (identifier) @name)) body: (compound_statement) @body) @func
"#;

pub const CPP_QUERY: &'static str = r#"
(function_definition declarator: (function_declarator declarator: [(identifier) (field_identifier) (qualified_identifier)] @name) body: (compound_statement) @body) @func
(function_definition declarator: (pointer_declarator declarator: (function_declarator declarator: [(identifier) (field_identifier) (qualified_identifier)] @name)) body: (compound_statement) @body) @func
(function_definition declarator: (reference_declarator (function_declarator declarator: [(identifier) (field_identifier) (qualified_identifier)] @name)) body: (compound_statement) @body) @func
"#;

pub const PHP_QUERY: &'static str = r#"
(function_definition name: (name) @name body: (compound_statement) @body) @func
(method_declaration name: (name) @name body: (compound_statement) @body) @func
"#;

pub const CSHARP_QUERY: &'static str = r#"
(method_declaration name: (identifier) @name body: (block) @body) @func
(constructor_declaration name: (identifier) @name body: (block) @body) @func
(local_function_statement name: (identifier) @name body: (block) @body) @func
"#;

pub const KOTLIN_QUERY: &'static str = r#"
(function_declaration name: (identifier) @name (function_body) @body) @func
"#;

pub const SCALA_QUERY: &'static str = r#"
(function_definition name: (identifier) @name body: (_) @body) @func
"#;

pub const COMMONLISP_QUERY: &'static str = r#"
(defun (defun_header function_name: (_) @name)) @func @body
"#;

pub const ELISP_QUERY: &'static str = r#"
(function_definition name: (symbol) @name) @func @body
(macro_definition name: (symbol) @name) @func @body
"#;

pub const CLOJURE_QUERY: &'static str = r#"
((list_lit . value: (sym_lit name: (sym_name) @_kind) . value: (sym_lit name: (sym_name) @name)) @func @body
 (#any-of? @_kind "defn" "defn-" "defmacro" "deftest" "defmulti" "defmethod"))
((list_lit . value: (sym_lit name: (sym_name) @_def) . value: (sym_lit name: (sym_name) @name) . value: (list_lit . value: (sym_lit name: (sym_name) @_fn)) @body) @func
 (#eq? @_def "def") (#eq? @_fn "fn"))
((list_lit . value: (sym_lit name: (sym_name) @_form) value: (list_lit . value: (sym_lit name: (sym_name) @name) . value: (vec_lit)) @func @body)
 (#any-of? @_form "defrecord" "deftype" "extend-type" "extend-protocol" "reify"))
"#;

pub const CSHARP_SHAPE_QUERY: &'static str = r#"
(class_declaration name: (identifier) @name body: (declaration_list) @body) @func
(struct_declaration name: (identifier) @name body: (declaration_list) @body) @func
(record_declaration name: (identifier) @name body: (declaration_list) @body) @func
(interface_declaration name: (identifier) @name body: (declaration_list) @body) @func
"#;

} // verus!
