//! Function extraction: what each language's query captures, how renamed
//! clones fingerprint, which units are flagged, and class shapes.

use dupehound::cluster::similarity;
use dupehound::extract::{analyze_source, extract_class_shapes, FunctionUnit};
use dupehound::lang::Lang;

/// Jaccard similarity of two units' fingerprint sets.
fn jaccard(a: &FunctionUnit, b: &FunctionUnit) -> f64 {
    let s = similarity(a, b);
    if s.union == 0 {
        0.0
    } else {
        s.shared as f64 / s.union as f64
    }
}


const TS_PAIR: &str = r#"
export function formatPrice(value: number, currency: string): string {
const rounded = Math.round(value * 100) / 100;
const parts = rounded.toFixed(2).split(".");
const whole = parts[0].replace(/\B(?=(\d{3})+(?!\d))/g, ",");
if (currency === "USD") {
    return "$" + whole + "." + parts[1];
}
return whole + "." + parts[1] + " " + currency;
}

export function displayCurrency(amount: number, code: string): string {
const r = Math.round(amount * 100) / 100;
const pieces = r.toFixed(2).split(".");
const integer = pieces[0].replace(/\B(?=(\d{3})+(?!\d))/g, ",");
if (code === "EUR") {
    return "$" + integer + "." + pieces[1];
}
return integer + "." + pieces[1] + " " + code;
}
"#;

#[test]
fn extracts_typescript_functions_with_spans() {
    let fa = analyze_source(0, Lang::Typescript, TS_PAIR, 10, false).unwrap();
    assert_eq!(fa.functions.len(), 2);
    assert_eq!(fa.functions[0].name, "formatPrice");
    assert_eq!(fa.functions[1].name, "displayCurrency");
    assert_eq!(fa.functions[0].start_line, 2);
    assert!(fa.functions[0].sig_lines >= 8);
}

#[test]
fn renamed_clone_has_identical_fingerprints() {
    // The two functions differ only in identifiers and literals — a
    // textbook type-2 clone. Normalization must make them identical.
    let fa = analyze_source(0, Lang::Typescript, TS_PAIR, 10, false).unwrap();
    assert_eq!(fa.functions[0].fingerprints, fa.functions[1].fingerprints);
}

#[test]
fn different_logic_does_not_match() {
    let src = r#"
function sumEvens(xs: number[]): number {
let total = 0;
for (const x of xs) {
    if (x % 2 === 0) total += x;
}
return total;
}

function describeUser(user: { name: string; age: number }): string {
if (user.age >= 18) {
    return user.name + " is an adult";
}
const wait = 18 - user.age;
return user.name + " can vote in " + wait + " years";
}
"#;
    let fa = analyze_source(0, Lang::Typescript, src, 10, false).unwrap();
    assert_eq!(fa.functions.len(), 2);
    let j = jaccard(&fa.functions[0], &fa.functions[1]);
    assert!(j < 0.3, "unrelated functions scored {j}");
}

#[test]
fn comments_do_not_affect_fingerprints() {
    let without = "function f(a: number) {\n  const b = a * 2;\n  const c = b + a * 7;\n  if (c > 10) { return c - b; }\n  return a + b + c;\n}";
    let with = "function f(a: number) {\n  // doubles the input\n  const b = a * 2;\n  /* magic */ const c = b + a * 7;\n  if (c > 10) { return c - b; }\n  return a + b + c; // done\n}";
    let fa1 = analyze_source(0, Lang::Typescript, without, 5, false).unwrap();
    let fa2 = analyze_source(0, Lang::Typescript, with, 5, false).unwrap();
    assert_eq!(fa1.functions[0].fingerprints, fa2.functions[0].fingerprints);
}

// Clojure's grammar represents operators, special forms, macros, and
// ordinary identifiers with the same `sym_name` node kind — unlike every
// other supported grammar, which gives keywords/operators their own
// distinct kinds separate from `identifier`. These two tests are the
// real regression guard for that: the TypeScript pair above proves
// normalization's core invariant once; this proves it still holds once
// a language can't lean on kind-name alone to tell "+" from "x".
const CLOJURE_PAIR: &str = r#"
(defn sum-items [items factor]
  (let [total (reduce (fn [acc item]
                     (let [value (* (:price item) (:qty item))]
                       (if (:discount item)
                         (+ acc (* value (- 1.0 (:discount item))))
                         (+ acc value))))
                   0.0
                   items)]
(+ total (* total factor))))

(defn combine-totals [rows scale]
  (let [sum (reduce (fn [acc row]
                   (let [amount (* (:price row) (:qty row))]
                     (if (:discount row)
                       (+ acc (* amount (- 1.0 (:discount row))))
                       (+ acc amount))))
                 0.0
                 rows)]
(+ sum (* sum scale))))
"#;

#[test]
fn clojure_renamed_clone_has_identical_fingerprints() {
    // Same shape, every local variable/parameter renamed, operators and
    // special forms (defn, let, reduce, fn, if, +, *, -) untouched — a
    // textbook type-2 clone.
    let fa = analyze_source(0, Lang::Clojure, CLOJURE_PAIR, 10, false).unwrap();
    assert_eq!(fa.functions.len(), 2);
    assert_eq!(fa.functions[0].fingerprints, fa.functions[1].fingerprints);
}

#[test]
fn clojure_different_logic_does_not_match() {
    // Same nesting shape, same literal-type pattern, but different verbs
    // throughout (max/when/min/- instead of */if/+). Before TokenClass::Op
    // exists, every symbol collapses to the same code regardless of kind,
    // so this is expected to FAIL — it's the concrete proof the fix does
    // what it claims once it lands.
    let src = r#"
(defn sum-items [items factor]
  (let [total (reduce (fn [acc item]
                     (let [value (* (:price item) (:qty item))]
                       (if (:discount item)
                         (+ acc (* value (- 1.0 (:discount item))))
                         (+ acc value))))
                   0.0
                   items)]
(+ total (* total factor))))

(defn max-items [items factor]
  (let [total (reduce (fn [acc item]
                     (let [value (max (:price item) (:qty item))]
                       (when (:discount item)
                         (- acc (min value (/ 1.0 (:discount item)))))
                       (- acc value)))
                   0.0
                   items)]
(- total (/ total factor))))
"#;
    let fa = analyze_source(0, Lang::Clojure, src, 10, false).unwrap();
    assert_eq!(fa.functions.len(), 2);
    let j = jaccard(&fa.functions[0], &fa.functions[1]);
    assert!(j < 0.3, "unrelated functions scored {j}");
}

#[test]
fn clojure_deftest_forms_are_captured() {
    // clojure.test's `deftest` isn't literally `defn`, so it needs its
    // own arm in the query's #any-of? list — without it, every deftest
    // in a real codebase's test suite is invisible to dupehound.
    let src = r#"
(defn add-one [x]
  (+ x 1))

(deftest add-one-test
  (testing "adds one"
(is (= 2 (add-one 1)))
(is (= 3 (add-one 2)))))
"#;
    let fa = analyze_source(0, Lang::Clojure, src, 5, false).unwrap();
    let names: Vec<&str> = fa.functions.iter().map(|f| f.name.as_str()).collect();
    assert_eq!(names, vec!["add-one", "add-one-test"]);
}

#[test]
fn clojure_def_bound_fn_is_captured() {
    // (def name (fn [args] ...)) is the def+fn idiom, equivalent to
    // (defn name [args] ...) -- mirrors javascript.scm's
    // variable_declarator pattern for `const name = () => {...}`.
    // len() == 1, not 2: dupehound intentionally has no bare/anonymous
    // -fn pattern (same javascript.scm precedent -- arrow functions are
    // only matched when bound to a name), so the inner (fn ...) node
    // is captured exactly once, by this pattern alone.
    let src = r#"
(def add-one (fn [x]
  (+ x 1)))
"#;
    let fa = analyze_source(0, Lang::Clojure, src, 1, false).unwrap();
    assert_eq!(fa.functions.len(), 1);
    assert_eq!(fa.functions[0].name, "add-one");
}

#[test]
fn clojure_plain_def_is_not_a_function() {
    // (def x 5) and (def config {...}) bind data, not a function value
    // -- only a def whose value is (fn ...) should match.
    let src = r#"
(def just-data
  {:a 1 :b 2})

(def aliased +)
"#;
    let fa = analyze_source(0, Lang::Clojure, src, 1, false).unwrap();
    assert!(
        fa.functions.is_empty(),
        "expected no functions, got {:?}",
        fa.functions.iter().map(|f| &f.name).collect::<Vec<_>>()
    );
}

#[test]
fn clojure_def_bound_fn_renamed_clone_has_identical_fingerprints() {
    // Two def+fn functions, same shape, renamed variable/parameter --
    // the def+fn idiom needs the same type-2-clone guarantee defn
    // already has. (defn and def+fn are NOT expected to match each
    // other: def+fn's body is just the inner (fn ...) node, so it has
    // no equivalent to defn's own leading "defn"/name tokens -- they're
    // different shapes, not the same stream.)
    let src = r#"
(def add-one (fn [x]
  (+ x 1)))

(def increment (fn [y]
  (+ y 1)))
"#;
    let fa = analyze_source(0, Lang::Clojure, src, 1, false).unwrap();
    assert_eq!(fa.functions.len(), 2);
    assert_eq!(fa.functions[0].fingerprints, fa.functions[1].fingerprints);
}

#[test]
fn clojure_defmulti_and_defmethod_are_captured() {
    let src = r#"
(defmulti area (fn [shape] (:type shape)))

(defmethod area :circle [shape]
  (* Math/PI (:radius shape) (:radius shape)))

(defmethod area :square [shape]
  (* (:side shape) (:side shape)))
"#;
    let fa = analyze_source(0, Lang::Clojure, src, 1, false).unwrap();
    let names: Vec<&str> = fa.functions.iter().map(|f| f.name.as_str()).collect();
    assert_eq!(names, vec!["area", "area", "area"]);
}

#[test]
fn clojure_defmethod_is_flagged_like_a_trait_impl_method() {
    // Mirrors rust_trait_impl_methods_are_flagged below: a plain defn
    // and a defmethod dispatch branch. Only the defmethod is flagged --
    // every dispatch branch of the same multimethod shares its name by
    // construction, so near-duplicate branches can't be merged away,
    // the same reasoning as a Rust trait impl.
    let src = r#"
(defn plain-area [shape]
  (* (:side shape) (:side shape)))

(defmethod area :circle [shape]
  (* Math/PI (:radius shape) (:radius shape)))
"#;
    let fa = analyze_source(0, Lang::Clojure, src, 1, false).unwrap();
    let plain = fa
        .functions
        .iter()
        .find(|f| f.name == "plain-area")
        .unwrap();
    let dispatch = fa.functions.iter().find(|f| f.name == "area").unwrap();
    assert!(!plain.is_trait_impl_method);
    assert!(dispatch.is_trait_impl_method);
}

#[test]
fn clojure_protocol_methods_are_captured() {
    let src = r#"
(defrecord DefaultShellExecutor []
  ShellExecutor

  (run-cmd [_this cmd args opts]
(assoc opts :cmd cmd)))
"#;
    let fa = analyze_source(0, Lang::Clojure, src, 1, false).unwrap();
    assert_eq!(fa.functions.len(), 1);
    assert_eq!(fa.functions[0].name, "run-cmd");
}

#[test]
fn clojure_protocol_method_renamed_clone_has_identical_fingerprints() {
    // Two records implementing the same protocol method, same logic,
    // renamed locals only -- the standard type-2-clone guarantee every
    // other captured Clojure form already has.
    let src = r#"
(defrecord DefaultShellExecutor []
  ShellExecutor

  (run-cmd [_this cmd args opts]
(let [env-map (get opts :env {})]
  (assoc opts :cmd cmd :env env-map))))

(defrecord LoggingShellExecutor []
  ShellExecutor

  (run-cmd [_this command arguments options]
(let [env-vars (get options :env {})]
  (assoc options :cmd command :env env-vars))))
"#;
    let fa = analyze_source(0, Lang::Clojure, src, 1, false).unwrap();
    assert_eq!(fa.functions.len(), 2);
    assert_eq!(fa.functions[0].fingerprints, fa.functions[1].fingerprints);
}

#[test]
fn clojure_protocol_method_is_flagged_like_a_trait_impl_method() {
    // Mirrors clojure_defmethod_is_flagged_like_a_trait_impl_method: a
    // plain defn isn't flagged, a protocol method implementation is --
    // its name is shared with every other type's implementation of the
    // same method by construction.
    let src = r#"
(defn plain-run [cmd]
  (assoc {} :cmd cmd))

(defrecord DefaultShellExecutor []
  ShellExecutor

  (run-cmd [_this cmd args opts]
(assoc opts :cmd cmd)))
"#;
    let fa = analyze_source(0, Lang::Clojure, src, 1, false).unwrap();
    let plain = fa.functions.iter().find(|f| f.name == "plain-run").unwrap();
    let method = fa.functions.iter().find(|f| f.name == "run-cmd").unwrap();
    assert!(!plain.is_trait_impl_method);
    assert!(method.is_trait_impl_method);
}

#[test]
fn clojure_vector_arg_call_is_not_a_protocol_method() {
    // The concrete false-positive guard: (zipmap [:a :b] [1 2]) is
    // shaped exactly like a protocol method -- symbol, then a vector --
    // but it's nested inside caller's own body, not a direct child of a
    // defrecord/deftype/.../reify form, so it must not match.
    let src = r#"
(defn caller []
  (zipmap [:a :b] [1 2]))
"#;
    let fa = analyze_source(0, Lang::Clojure, src, 1, false).unwrap();
    let names: Vec<&str> = fa.functions.iter().map(|f| f.name.as_str()).collect();
    assert_eq!(names, vec!["caller"]);
}

#[test]
fn clojure_extend_type_extend_protocol_and_reify_methods_are_captured() {
    let src = r#"
(extend-type MyType
  ShellExecutor
  (run-cmd [this cmd args opts]
(do-thing cmd)))

(extend-protocol ShellExecutor
  AnotherType
  (run-cmd [this cmd args opts]
(do-thing cmd))
  ThirdType
  (run-cmd [this cmd args opts]
(do-other cmd)))

(defn make-inline-executor []
  (reify ShellExecutor
(run-cmd [this cmd args opts]
  (do-thing cmd))))
"#;
    let fa = analyze_source(0, Lang::Clojure, src, 1, false).unwrap();
    // extend-type: 1 run-cmd, extend-protocol: 2 (AnotherType + ThirdType),
    // reify: 1 run-cmd -- plus make-inline-executor itself, the ordinary
    // defn that wraps the reify expression.
    let run_cmds: Vec<_> = fa
        .functions
        .iter()
        .filter(|f| f.name == "run-cmd")
        .collect();
    assert_eq!(run_cmds.len(), 4);
    assert!(run_cmds.iter().all(|f| f.is_trait_impl_method));
    let wrapper = fa
        .functions
        .iter()
        .find(|f| f.name == "make-inline-executor")
        .unwrap();
    assert!(!wrapper.is_trait_impl_method);
    assert_eq!(fa.functions.len(), 5);
}

const CS_CLASSES: &str = r#"
public class Customer {
public int Id { get; set; }
public string Name { get; set; }
public string Email { get; set; }
public DateTime CreatedAt { get; set; }
}

public class CustomerRecord {
public int Id { get; set; }
public string Name { get; set; }
public string Email { get; set; }
public DateTime CreatedAt { get; set; }
}

public class Invoice {
public int InvoiceNumber { get; set; }
public decimal Amount { get; set; }
public string Currency { get; set; }
}

public class Tiny {
public int X { get; set; }
}
"#;

#[test]
fn class_shapes_extracts_only_non_trivial_types() {
    let shapes = extract_class_shapes(0, Lang::Csharp, CS_CLASSES, false);
    // Customer, CustomerRecord and Invoice qualify; Tiny (1 member) is below
    // the member floor and is dropped.
    let names: Vec<&str> = shapes.iter().map(|s| s.name.as_str()).collect();
    assert_eq!(names, vec!["Customer", "CustomerRecord", "Invoice"]);
}

#[test]
fn near_duplicate_classes_share_signatures() {
    let shapes = extract_class_shapes(0, Lang::Csharp, CS_CLASSES, false);
    let by = |n: &str| shapes.iter().find(|s| s.name == n).unwrap();
    // Same property set, different class name -> identical signature set.
    let j = jaccard(by("Customer"), by("CustomerRecord"));
    assert!((j - 1.0).abs() < 1e-9, "expected identical shapes, got {j}");
}

#[test]
fn unrelated_classes_do_not_share_signatures() {
    let shapes = extract_class_shapes(0, Lang::Csharp, CS_CLASSES, false);
    let by = |n: &str| shapes.iter().find(|s| s.name == n).unwrap();
    let j =
        jaccard(by("Customer"), by("Invoice"));
    assert!(j < 0.1, "unrelated classes scored {j}");
}

#[test]
fn primary_constructor_matches_classic_constructor() {
    // The same model written two ways: a classic constructor in the body vs a
    // C# primary constructor on the class header. Both should normalize to the
    // same shape so the rewrite is still flagged as a duplicate.
    let src = r#"
public class Classic {
public Classic(Graph graph) { this.Cur = graph; }
public Graph Cur { get; private set; }
public string Name { get; set; }
public int Id { get; set; }
}

public class Primary(Graph graph) {
public Graph Cur { get; private set; } = graph;
public string Name { get; set; }
public int Id { get; set; }
}
"#;
    let shapes = extract_class_shapes(0, Lang::Csharp, src, false);
    let by = |n: &str| shapes.iter().find(|s| s.name == n).unwrap();
    let j =
        jaccard(by("Classic"), by("Primary"));
    assert!(
        (j - 1.0).abs() < 1e-9,
        "primary and classic constructor forms should match, got {j}"
    );
}

#[test]
fn non_csharp_has_no_shape_query() {
    assert!(extract_class_shapes(0, Lang::Typescript, "class Foo {}", false).is_empty());
}

#[test]
fn rust_cfg_test_functions_are_flagged() {
    let src = "fn real_work(a: u32) -> u32 {\n    let b = a * 3;\n    let c = b + 11;\n    if c > 100 { return c - b; }\n    a + b + c\n}\n\n#[cfg(test)]\nmod tests {\n    fn helper_in_tests(a: u32) -> u32 {\n        let b = a * 5;\n        let c = b + 13;\n        if c > 50 { return c + b; }\n        a * b * c\n    }\n}\n";
    let fa = analyze_source(0, Lang::Rust, src, 5, false).unwrap();
    assert_eq!(fa.functions.len(), 2);
    assert!(!fa.functions[0].is_test);
    assert!(fa.functions[1].is_test);
}

#[test]
fn rust_trait_impl_methods_are_flagged() {
    // A trait impl (`fmt`) and an inherent impl (`area`). Only the trait
    // method is flagged; the inherent method is normal, scorable code.
    let src = "struct S { w: u32, h: u32 }\n\nimpl std::fmt::Display for S {\n    fn fmt(&self, f: &mut std::fmt::Formatter) -> std::fmt::Result {\n        let a = self.w + self.h;\n        let b = a * 2;\n        write!(f, \"{} {}\", a, b)\n    }\n}\n\nimpl S {\n    fn area(&self) -> u32 {\n        let a = self.w * self.h;\n        let b = a + 1;\n        a + b\n    }\n}\n";
    let fa = analyze_source(0, Lang::Rust, src, 5, false).unwrap();
    assert_eq!(fa.functions.len(), 2);
    let fmt = fa.functions.iter().find(|f| f.name == "fmt").unwrap();
    let area = fa.functions.iter().find(|f| f.name == "area").unwrap();
    assert!(fmt.is_trait_impl_method);
    assert!(!area.is_trait_impl_method);
}
