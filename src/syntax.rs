use vstd::prelude::*;
use crate::text::chars_of;

verus! {

/// What a syntax node holds: kind, field name under its parent, depth below the root,
/// byte range, 0-indexed start row and source text.
pub ghost struct SyntaxView {
    pub kind: Seq<char>,
    pub field: Option<Seq<char>>,
    pub depth: nat,
    pub start: nat,
    pub end: nat,
    pub row: nat,
    pub text: Seq<char>,
}

/// One node of a parsed source file. A tree is the list of its nodes in pre-order, the root
/// first at depth 0.
#[derive(Debug)]
pub struct SyntaxNode {
    pub kind: &'static str,
    pub field: Option<&'static str>,
    pub depth: usize,
    pub start_byte: usize,
    pub end_byte: usize,
    pub start_row: usize,
    pub text: String,
}

pub open spec fn opt_view(o: Option<&'static str>) -> Option<Seq<char>> {
    match o {
        Some(s) => Some(s@),
        None => None,
    }
}

impl View for SyntaxNode {
    type V = SyntaxView;

    open spec fn view(&self) -> SyntaxView {
        SyntaxView {
            kind: self.kind@,
            field: opt_view(self.field),
            depth: self.depth as nat,
            start: self.start_byte as nat,
            end: self.end_byte as nat,
            row: self.start_row as nat,
            text: self.text@,
        }
    }
}

pub open spec fn tree_view(t: Seq<SyntaxNode>) -> Seq<SyntaxView> {
    t.map_values(|n: SyntaxNode| n@)
}

/// The pre-order node list that the Rust grammar gives for a source text, if it parses.
pub uninterp spec fn syntax_of(source: Seq<char>) -> Option<Seq<SyntaxView>>;

/// The byte range of the smallest node that spans the point (row, column) of a source text.
pub uninterp spec fn focus_of(source: Seq<char>, row: nat, column: nat) -> Option<(nat, nat)>;

/// Relies on tree-sitter's `Parser::parse` with tree-sitter-rust's grammar, walked with
/// `TreeCursor::goto_descendant`: every node of the tree, in pre-order. Node byte ranges
/// fall on character boundaries of the parsed text.
#[verifier::external_body]
fn parse_syntax(source: &str) -> (r: Option<Vec<SyntaxNode>>)
    ensures
        match r {
            Some(v) => syntax_of(source@) == Some(tree_view(v@)),
            None => syntax_of(source@) is None,
        },
{
    let mut parser = tree_sitter::Parser::new();
    parser.set_language(&tree_sitter_rust::LANGUAGE.into()).ok()?;
    let tree = parser.parse(source, None)?;
    let (mut cursor, mut nodes) = (tree.walk(), Vec::new());
    for i in 0..tree.root_node().descendant_count() {
        cursor.goto_descendant(i);
        let (n, field, depth) = (cursor.node(), cursor.field_name(), cursor.depth() as usize);
        let text = source[n.byte_range()].to_string();
        let (start_byte, end_byte, start_row) = (n.start_byte(), n.end_byte(), n.start_position().row);
        nodes.push(SyntaxNode { kind: n.kind(), field, depth, start_byte, end_byte, start_row, text });
    }
    Some(nodes)
}

/// Relies on tree-sitter's `Node::descendant_for_point_range` on the root of the parsed
/// text: the byte range of the smallest node that spans the point.
#[verifier::external_body]
fn focus_span(source: &str, row: usize, column: usize) -> (r: Option<(usize, usize)>)
    ensures
        match r {
            Some(s) => focus_of(source@, row as nat, column as nat) == Some(
                (s.0 as nat, s.1 as nat),
            ),
            None => focus_of(source@, row as nat, column as nat) is None,
        },
{
    let mut parser = tree_sitter::Parser::new();
    parser.set_language(&tree_sitter_rust::LANGUAGE.into()).ok()?;
    let tree = parser.parse(source, None)?;
    let point = tree_sitter::Point::new(row, column);
    let n = tree.root_node().descendant_for_point_range(point, point)?;
    Some((n.start_byte(), n.end_byte()))
}

/// The value of a run of ASCII digits.
pub open spec fn digits_value(s: Seq<char>) -> int
    decreases s.len(),
{
    if s.len() == 0 {
        0
    } else {
        digits_value(s.drop_last()) * 10 + (s.last() as int - '0' as int)
    }
}

pub open spec fn all_digits(s: Seq<char>) -> bool {
    s.len() > 0 && forall|i: int| 0 <= i < s.len() ==> '0' <= #[trigger] s[i] && s[i] <= '9'
}

/// The integer that `s` writes: an optional `+` or `-` and then decimal digits.
pub open spec fn integer_text(s: Seq<char>) -> Option<int> {
    if s.len() > 0 && s[0] == '-' && all_digits(s.drop_first()) {
        Some(-digits_value(s.drop_first()))
    } else if s.len() > 0 && s[0] == '+' && all_digits(s.drop_first()) {
        Some(digits_value(s.drop_first()))
    } else if all_digits(s) {
        Some(digits_value(s))
    } else {
        None
    }
}

/// The `i64` that `s` writes, if it writes one in range.
pub open spec fn i64_of(s: Seq<char>) -> Option<i64> {
    match integer_text(s) {
        Some(v) => if i64::MIN <= v <= i64::MAX {
            Some(v as i64)
        } else {
            None
        },
        None => None,
    }
}

/// Relies on `str::parse::<i64>`: an optional sign and decimal digits, within range.
#[verifier::external_body]
fn parse_i64(s: &str) -> (r: Option<i64>)
    ensures
        r == i64_of(s@),
{
    s.parse::<i64>().ok()
}

/// Whether two texts are equal.
pub fn same_text(a: &str, b: &str) -> (r: bool)
    ensures
        r == (a@ == b@),
{
    let x = chars_of(a);
    let y = chars_of(b);
    assert(x@ == a@);
    if x.len() != y.len() {
        return false;
    }
    let mut i: usize = 0;
    while i < x.len()
        invariant
            x@ == a@,
            y@ == b@,
            x@.len() == y@.len(),
            i <= x@.len(),
            forall|k: int| 0 <= k < i ==> x@[k] == y@[k],
        decreases x@.len() - i,
    {
        if x[i] != y[i] {
            assert(x@[i as int] != y@[i as int]);
            assert(x@ != y@);
            return false;
        }
        i = i + 1;
    }
    assert(x@ =~= y@);
    true
}

// ---------------------------------------------------------------------------------------
// Tree structure over the pre-order list.
/// The nearest node before `j + 1` that lies shallower than node `k`, or -1.
pub open spec fn parent_from(t: Seq<SyntaxView>, k: int, j: int) -> int
    decreases j + 1,
{
    if j < 0 || j >= t.len() {
        -1
    } else if t[j].depth < t[k].depth {
        j
    } else {
        parent_from(t, k, j - 1)
    }
}

/// The parent of node `k`: the nearest earlier node that lies shallower, or -1 for none.
pub open spec fn parent_of(t: Seq<SyntaxView>, k: int) -> int {
    parent_from(t, k, k - 1)
}

/// The first child of node `k` from index `j` on under the field `name`, or -1.
pub open spec fn field_child_from(t: Seq<SyntaxView>, k: int, name: Seq<char>, j: int) -> int
    decreases t.len() - j,
{
    if j <= k || j >= t.len() || t[j].depth <= t[k].depth {
        -1
    } else if t[j].depth == t[k].depth + 1 && t[j].field == Some(name) {
        j
    } else {
        field_child_from(t, k, name, j + 1)
    }
}

/// The first child of node `k` under the field `name`, or -1.
pub open spec fn field_child(t: Seq<SyntaxView>, k: int, name: Seq<char>) -> int {
    field_child_from(t, k, name, k + 1)
}

/// The last node before `j` with the byte range `span`, or -1.
pub open spec fn focus_from(t: Seq<SyntaxView>, span: (nat, nat), j: int) -> int
    decreases j,
{
    if j <= 0 || j > t.len() {
        -1
    } else if t[j - 1].start == span.0 && t[j - 1].end == span.1 {
        j - 1
    } else {
        focus_from(t, span, j - 1)
    }
}

/// The deepest node with the byte range `span`, or -1.
pub open spec fn focus_index(t: Seq<SyntaxView>, span: (nat, nat)) -> int {
    focus_from(t, span, t.len() as int)
}

/// A flattened tree with its view.
pub open spec fn view_of(t: &Vec<SyntaxNode>) -> Seq<SyntaxView> {
    tree_view(t@)
}

fn parent_index(t: &Vec<SyntaxNode>, k: usize) -> (r: Option<usize>)
    requires
        k < t@.len(),
    ensures
        match r {
            Some(p) => parent_of(view_of(t), k as int) == p && p < k,
            None => parent_of(view_of(t), k as int) == -1,
        },
{
    let ghost tv = view_of(t);
    let mut j: usize = k;
    while j > 0
        invariant
            tv == view_of(t),
            tv.len() == t@.len(),
            k < t@.len(),
            j <= k,
            parent_from(tv, k as int, j - 1) == parent_of(tv, k as int),
        decreases j,
    {
        assert(tv[j - 1] == t@[j - 1]@);
        assert(tv[k as int] == t@[k as int]@);
        if t[j - 1].depth < t[k].depth {
            return Some(j - 1);
        }
        j = j - 1;
    }
    None
}

fn field_child_index(t: &Vec<SyntaxNode>, k: usize, name: &str) -> (r: Option<usize>)
    requires
        k < t@.len(),
    ensures
        match r {
            Some(c) => field_child(view_of(t), k as int, name@) == c && k < c < t@.len(),
            None => field_child(view_of(t), k as int, name@) == -1,
        },
{
    let ghost tv = view_of(t);
    let n = t.len();
    let mut j: usize = k + 1;
    while j < t.len() && t[j].depth > t[k].depth
        invariant
            tv == view_of(t),
            tv.len() == t@.len(),
            k < j <= t@.len(),
            field_child_from(tv, k as int, name@, j as int) == field_child(tv, k as int, name@),
        decreases t@.len() - j,
    {
        assert(tv[j as int] == t@[j as int]@);
        assert(tv[k as int] == t@[k as int]@);
        let is_field = match &t[j].field {
            Some(f) => same_text(f, name),
            None => false,
        };
        if t[j].depth == t[k].depth + 1 && is_field {
            return Some(j);
        }
        j = j + 1;
    }
    if j < t.len() {
        assert(tv[j as int] == t@[j as int]@);
        assert(tv[k as int] == t@[k as int]@);
    }
    None
}

fn focus_position(t: &Vec<SyntaxNode>, span: (usize, usize)) -> (r: Option<usize>)
    ensures
        match r {
            Some(k) => focus_index(view_of(t), (span.0 as nat, span.1 as nat)) == k && k < t@.len(),
            None => focus_index(view_of(t), (span.0 as nat, span.1 as nat)) == -1,
        },
{
    let ghost tv = view_of(t);
    let ghost sp = (span.0 as nat, span.1 as nat);
    let mut j: usize = t.len();
    while j > 0
        invariant
            tv == view_of(t),
            tv.len() == t@.len(),
            sp == (span.0 as nat, span.1 as nat),
            j <= t@.len(),
            focus_from(tv, sp, j as int) == focus_index(tv, sp),
        decreases j,
    {
        assert(tv[j - 1] == t@[j - 1]@);
        if t[j - 1].start_byte == span.0 && t[j - 1].end_byte == span.1 {
            assert(focus_from(tv, sp, j as int) == j - 1);
            return Some(j - 1);
        }
        assert(focus_from(tv, sp, j as int) == focus_from(tv, sp, j - 1));
        j = j - 1;
    }
    None
}

// ---------------------------------------------------------------------------------------
// Enclosing blocks.
/// The block kinds: items worth extracting whole, and the top-level items listed as symbols.
pub open spec fn is_block_kind(k: Seq<char>) -> bool {
    k == "function_item"@ || k == "struct_item"@ || k == "enum_item"@ || k == "trait_item"@ || k
        == "mod_item"@ || k == "macro_definition"@
}

/// The nearest node from `k` upwards, the root excluded, whose kind is a block kind, or -1.
pub open spec fn enclosing_block(t: Seq<SyntaxView>, k: int) -> int
    decreases k,
{
    if !(0 <= k < t.len()) {
        -1
    } else {
        let p = parent_of(t, k);
        if !(0 <= p < k) {
            -1
        } else if is_block_kind(t[k].kind) {
            k
        } else {
            enclosing_block(t, p)
        }
    }
}

/// The node from `k` upwards whose parent is the `source_file` root, or -1.
pub open spec fn top_level(t: Seq<SyntaxView>, k: int) -> int
    decreases k,
{
    if !(0 <= k < t.len()) {
        -1
    } else {
        let p = parent_of(t, k);
        if !(0 <= p < k) {
            -1
        } else if t[p].kind == "source_file"@ {
            k
        } else {
            top_level(t, p)
        }
    }
}

/// The text of the block around the node with byte range `span`: its nearest enclosing
/// block, else the top-level item holding it.
pub open spec fn block_of(t: Seq<SyntaxView>, span: (nat, nat)) -> Option<Seq<char>> {
    let k = focus_index(t, span);
    if k < 0 {
        None
    } else if enclosing_block(t, k) >= 0 {
        Some(t[enclosing_block(t, k)].text)
    } else if top_level(t, k) >= 0 {
        Some(t[top_level(t, k)].text)
    } else {
        None
    }
}

fn is_block_kind_text(k: &str) -> (r: bool)
    ensures
        r == is_block_kind(k@),
{
    same_text(k, "function_item") || same_text(k, "struct_item") || same_text(k, "enum_item")
        || same_text(k, "trait_item") || same_text(k, "mod_item") || same_text(k, "macro_definition")
}

/// The text of the block around the node with byte range `span` in a parsed tree.
pub fn block_in_tree(t: &Vec<SyntaxNode>, span: (usize, usize)) -> (r: Option<String>)
    ensures
        match r {
            Some(s) => block_of(view_of(t), (span.0 as nat, span.1 as nat)) == Some(s@),
            None => block_of(view_of(t), (span.0 as nat, span.1 as nat)) is None,
        },
{
    let ghost tv = view_of(t);
    let k0 = match focus_position(t, span) {
        Some(k) => k,
        None => return None,
    };
    let mut k = k0;
    loop
        invariant
            tv == view_of(t),
            tv.len() == t@.len(),
            k < t@.len(),
            focus_index(tv, (span.0 as nat, span.1 as nat)) == k0,
            enclosing_block(tv, k as int) == enclosing_block(tv, k0 as int),
        ensures
            enclosing_block(tv, k0 as int) == -1,
        decreases k,
    {
        assert(tv[k as int] == t@[k as int]@);
        match parent_index(t, k) {
            None => break,
            Some(p) => {
                if is_block_kind_text(t[k].kind) {
                    assert(enclosing_block(tv, k as int) == k);
                    let r = t[k].text.clone();
                    assert(r@ == tv[k as int].text);
                    return Some(r);
                }
                k = p;
            },
        }
    }
    let mut k = k0;
    loop
        invariant
            tv == view_of(t),
            tv.len() == t@.len(),
            k < t@.len(),
            focus_index(tv, (span.0 as nat, span.1 as nat)) == k0,
            enclosing_block(tv, k0 as int) == -1,
            top_level(tv, k as int) == top_level(tv, k0 as int),
        decreases k,
    {
        match parent_index(t, k) {
            None => {
                assert(top_level(tv, k as int) == -1);
                return None;
            },
            Some(p) => {
                assert(tv[p as int] == t@[p as int]@);
                if same_text(t[p].kind, "source_file") {
                    assert(tv[k as int] == t@[k as int]@);
                    assert(top_level(tv, k as int) == k);
                    let r = t[k].text.clone();
                    assert(r@ == tv[k as int].text);
                    return Some(r);
                }
                k = p;
            },
        }
    }
}

// ---------------------------------------------------------------------------------------
// Symbols.
/// What a symbol holds: name, kind, source text and 0-indexed start line.
pub type SymbolView = (Seq<char>, Seq<char>, Seq<char>, nat);

/// A top-level definition of a source file.
#[derive(Debug)]
pub struct SymbolInfo {
    pub name: String,
    pub kind: String,
    pub code: String,
    pub line: usize,
}

impl View for SymbolInfo {
    type V = SymbolView;

    open spec fn view(&self) -> SymbolView {
        (self.name@, self.kind@, self.code@, self.line as nat)
    }
}

impl Clone for SymbolInfo {
    fn clone(&self) -> (r: Self)
        ensures
            r == *self,
    {
        SymbolInfo {
            name: self.name.clone(),
            kind: self.kind.clone(),
            code: self.code.clone(),
            line: self.line,
        }
    }
}

/// The symbol for node `k`: the text of its `name` field (or `unknown`), kind, text and row.
pub open spec fn symbol_at(t: Seq<SyntaxView>, k: int) -> SymbolView {
    let c = field_child(t, k, "name"@);
    (if c >= 0 {
        t[c].text
    } else {
        "unknown"@
    }, t[k].kind, t[k].text, t[k].row)
}

/// The symbols among the first `n` nodes: the root's children of a symbol kind, in order.
pub open spec fn symbols_upto(t: Seq<SyntaxView>, n: int) -> Seq<SymbolView>
    decreases n,
{
    if n <= 0 || n > t.len() {
        Seq::empty()
    } else {
        let rest = symbols_upto(t, n - 1);
        if t[n - 1].depth == 1 && is_block_kind(t[n - 1].kind) {
            rest.push(symbol_at(t, n - 1))
        } else {
            rest
        }
    }
}

/// The top-level symbols of a parsed tree.
pub open spec fn symbols_of(t: Seq<SyntaxView>) -> Seq<SymbolView> {
    symbols_upto(t, t.len() as int)
}

/// The top-level symbols of a parsed tree, in order.
pub fn symbols_in_tree(t: &Vec<SyntaxNode>) -> (r: Vec<SymbolInfo>)
    ensures
        r@.map_values(|s: SymbolInfo| s@) == symbols_of(view_of(t)),
{
    let ghost tv = view_of(t);
    let mut r: Vec<SymbolInfo> = Vec::new();
    let mut n: usize = 0;
    while n < t.len()
        invariant
            tv == view_of(t),
            tv.len() == t@.len(),
            n <= t@.len(),
            r@.map_values(|s: SymbolInfo| s@) == symbols_upto(tv, n as int),
        decreases t@.len() - n,
    {
        assert(tv[n as int] == t@[n as int]@);
        let node = &t[n];
        if node.depth == 1 && is_block_kind_text(node.kind) {
            let name = match field_child_index(t, n, "name") {
                Some(c) => {
                    assert(tv[c as int] == t@[c as int]@);
                    t[c].text.clone()
                },
                None => {
                    let u = "unknown";
                    let s = crate::text::string_of(chars_of(u).as_slice());
                    s
                },
            };
            let sym = SymbolInfo {
                name,
                kind: string_from(node.kind),
                code: node.text.clone(),
                line: node.start_row,
            };
            let ghost before = r@.map_values(|s: SymbolInfo| s@);
            r.push(sym);
            assert(r@.map_values(|s: SymbolInfo| s@) =~= before.push(sym@));
        }
        n = n + 1;
    }
    r
}

// ---------------------------------------------------------------------------------------
// Constraints.
/// What a constraint holds: variable name, comparison operator and integer.
pub type ConstraintView = (Seq<char>, Seq<char>, i64);

/// A comparison of a named integer variable with a constant.
#[derive(Debug)]
pub struct Constraint {
    pub var: String,
    pub op: String,
    pub val: i64,
}

impl View for Constraint {
    type V = ConstraintView;

    open spec fn view(&self) -> ConstraintView {
        (self.var@, self.op@, self.val)
    }
}

impl Clone for Constraint {
    fn clone(&self) -> (r: Self)
        ensures
            r == *self,
    {
        Constraint { var: self.var.clone(), op: self.op.clone(), val: self.val }
    }
}

pub open spec fn constraint_views(cs: Seq<Constraint>) -> Seq<ConstraintView> {
    cs.map_values(|c: Constraint| c@)
}

/// `let name = integer;` at node `c` as `name == integer`.
pub open spec fn let_constraint(t: Seq<SyntaxView>, c: int) -> Option<ConstraintView> {
    let p = field_child(t, c, "pattern"@);
    let v = field_child(t, c, "value"@);
    if p >= 0 && v >= 0 && t[p].kind == "identifier"@ && t[v].kind == "integer_literal"@ {
        match i64_of(t[v].text) {
            Some(x) => Some((t[p].text, "=="@, x)),
            None => None,
        }
    } else {
        None
    }
}

/// The operator that states the same comparison with its operands swapped.
pub open spec fn flipped(op: Seq<char>) -> Option<Seq<char>> {
    if op == ">"@ {
        Some("<"@)
    } else if op == "<"@ {
        Some(">"@)
    } else if op == ">="@ {
        Some("<="@)
    } else if op == "<="@ {
        Some(">="@)
    } else if op == "=="@ {
        Some("=="@)
    } else if op == "!="@ {
        Some("!="@)
    } else {
        None
    }
}

/// A binary expression at node `b` that compares an identifier with an integer literal by
/// one of the six comparison operators, with the identifier put on the left.
pub open spec fn binary_constraint(t: Seq<SyntaxView>, b: int) -> Option<ConstraintView> {
    let l = field_child(t, b, "left"@);
    let r = field_child(t, b, "right"@);
    let o = field_child(t, b, "operator"@);
    if t[b].kind != "binary_expression"@ || l < 0 || r < 0 || o < 0 {
        None
    } else if t[l].kind == "identifier"@ && t[r].kind == "integer_literal"@ {
        match (i64_of(t[r].text), flipped(t[o].text)) {
            (Some(x), Some(_)) => Some((t[l].text, t[o].text, x)),
            _ => None,
        }
    } else if t[l].kind == "integer_literal"@ && t[r].kind == "identifier"@ {
        match (i64_of(t[l].text), flipped(t[o].text)) {
            (Some(x), Some(op)) => Some((t[r].text, op, x)),
            _ => None,
        }
    } else {
        None
    }
}

/// The `let` constraints among the children of block `p` from index `j` on that end by byte
/// `limit`, in order.
pub open spec fn block_lets_from(t: Seq<SyntaxView>, p: int, limit: nat, j: int) -> Seq<
    ConstraintView,
>
    decreases t.len() - j,
{
    if j <= p || j >= t.len() || t[j].depth <= t[p].depth {
        Seq::empty()
    } else {
        let rest = block_lets_from(t, p, limit, j + 1);
        if t[j].depth == t[p].depth + 1 && t[j].end <= limit && t[j].kind == "let_declaration"@
            && let_constraint(t, j) is Some {
            seq![let_constraint(t, j).unwrap()] + rest
        } else {
            rest
        }
    }
}

/// The condition of `if` expression `p`, where node `k` lies in its consequence.
pub open spec fn if_condition(t: Seq<SyntaxView>, p: int, k: int) -> Seq<ConstraintView> {
    let cons = field_child(t, p, "consequence"@);
    let cond = field_child(t, p, "condition"@);
    if cons >= 0 && t[cons].start <= t[k].start && t[k].end <= t[cons].end && cond >= 0
        && binary_constraint(t, cond) is Some {
        seq![binary_constraint(t, cond).unwrap()]
    } else {
        Seq::empty()
    }
}

/// From node `k` outwards: the constant `let`s before it in each enclosing block, and the
/// conditions of the `if`s whose consequence holds it.
pub open spec fn walk_constraints(t: Seq<SyntaxView>, k: int) -> (
    Seq<ConstraintView>,
    Seq<ConstraintView>,
)
    decreases k,
{
    if !(0 <= k < t.len()) {
        (Seq::empty(), Seq::empty())
    } else {
        let p = parent_of(t, k);
        if !(0 <= p < k) {
            (Seq::empty(), Seq::empty())
        } else {
            let a = if t[p].kind == "block"@ {
                block_lets_from(t, p, t[k].start, p + 1)
            } else {
                Seq::empty()
            };
            let c = if t[p].kind == "if_expression"@ {
                if_condition(t, p, k)
            } else {
                Seq::empty()
            };
            let rest = walk_constraints(t, p);
            (a + rest.0, c + rest.1)
        }
    }
}

/// The assignments and conditions around the node with byte range `span`.
pub open spec fn constraints_of(t: Seq<SyntaxView>, span: (nat, nat)) -> (
    Seq<ConstraintView>,
    Seq<ConstraintView>,
) {
    let k = focus_index(t, span);
    if k < 0 {
        (Seq::empty(), Seq::empty())
    } else {
        walk_constraints(t, k)
    }
}

fn string_from(s: &str) -> (r: String)
    ensures
        r@ == s@,
{
    crate::text::string_of(chars_of(s).as_slice())
}

fn let_constraint_at(t: &Vec<SyntaxNode>, c: usize) -> (r: Option<Constraint>)
    requires
        c < t@.len(),
    ensures
        match r {
            Some(x) => let_constraint(view_of(t), c as int) == Some(x@),
            None => let_constraint(view_of(t), c as int) is None,
        },
{
    let ghost tv = view_of(t);
    let p = match field_child_index(t, c, "pattern") {
        Some(p) => p,
        None => return None,
    };
    let v = match field_child_index(t, c, "value") {
        Some(v) => v,
        None => return None,
    };
    assert(tv[p as int] == t@[p as int]@);
    assert(tv[v as int] == t@[v as int]@);
    if same_text(t[p].kind, "identifier") && same_text(
        t[v].kind,
        "integer_literal",
    ) {
        match parse_i64(t[v].text.as_str()) {
            Some(x) => Some(Constraint { var: t[p].text.clone(), op: string_from("=="), val: x }),
            None => None,
        }
    } else {
        None
    }
}

fn flip_operator(op: &str) -> (r: Option<String>)
    ensures
        match r {
            Some(s) => flipped(op@) == Some(s@),
            None => flipped(op@) is None,
        },
{
    if same_text(op, ">") {
        Some(string_from("<"))
    } else if same_text(op, "<") {
        Some(string_from(">"))
    } else if same_text(op, ">=") {
        Some(string_from("<="))
    } else if same_text(op, "<=") {
        Some(string_from(">="))
    } else if same_text(op, "==") {
        Some(string_from("=="))
    } else if same_text(op, "!=") {
        Some(string_from("!="))
    } else {
        None
    }
}

fn binary_constraint_at(t: &Vec<SyntaxNode>, b: usize) -> (r: Option<Constraint>)
    requires
        b < t@.len(),
    ensures
        match r {
            Some(x) => binary_constraint(view_of(t), b as int) == Some(x@),
            None => binary_constraint(view_of(t), b as int) is None,
        },
{
    let ghost tv = view_of(t);
    assert(tv[b as int] == t@[b as int]@);
    let l = field_child_index(t, b, "left");
    let r = field_child_index(t, b, "right");
    let o = field_child_index(t, b, "operator");
    if !same_text(t[b].kind, "binary_expression") {
        return None;
    }
    let (l, r, o) = match (l, r, o) {
        (Some(l), Some(r), Some(o)) => (l, r, o),
        _ => return None,
    };
    assert(tv[l as int] == t@[l as int]@);
    assert(tv[r as int] == t@[r as int]@);
    assert(tv[o as int] == t@[o as int]@);
    if same_text(t[l].kind, "identifier") && same_text(
        t[r].kind,
        "integer_literal",
    ) {
        match (parse_i64(t[r].text.as_str()), flip_operator(t[o].text.as_str())) {
            (Some(x), Some(_)) => Some(
                Constraint { var: t[l].text.clone(), op: t[o].text.clone(), val: x },
            ),
            _ => None,
        }
    } else if same_text(t[l].kind, "integer_literal") && same_text(
        t[r].kind,
        "identifier",
    ) {
        match (parse_i64(t[l].text.as_str()), flip_operator(t[o].text.as_str())) {
            (Some(x), Some(op)) => Some(Constraint { var: t[r].text.clone(), op, val: x }),
            _ => None,
        }
    } else {
        None
    }
}

fn block_lets(t: &Vec<SyntaxNode>, p: usize, limit: usize, out: &mut Vec<Constraint>)
    requires
        p < t@.len(),
    ensures
        constraint_views(final(out)@) == constraint_views(old(out)@) + block_lets_from(
            view_of(t),
            p as int,
            limit as nat,
            p + 1,
        ),
{
    let ghost tv = view_of(t);
    let ghost start = constraint_views(out@);
    let n = t.len();
    let mut j: usize = p + 1;
    while j < t.len() && t[j].depth > t[p].depth
        invariant
            tv == view_of(t),
            tv.len() == t@.len(),
            p < j <= t@.len(),
            constraint_views(out@) + block_lets_from(tv, p as int, limit as nat, j as int) == start
                + block_lets_from(tv, p as int, limit as nat, p + 1),
        decreases t@.len() - j,
    {
        assert(tv[j as int] == t@[j as int]@);
        assert(tv[p as int] == t@[p as int]@);
        let ghost before = constraint_views(out@);
        if t[j].depth == t[p].depth + 1 && t[j].end_byte <= limit && same_text(
            t[j].kind,
            "let_declaration",
        ) {
            match let_constraint_at(t, j) {
                Some(c) => {
                    out.push(c);
                    assert(constraint_views(out@) =~= before.push(c@));
                    assert(before.push(c@) + block_lets_from(
                        tv,
                        p as int,
                        limit as nat,
                        j + 1,
                    ) =~= before + block_lets_from(tv, p as int, limit as nat, j as int));
                },
                None => {},
            }
        }
        j = j + 1;
    }
    if j < t.len() {
        assert(tv[j as int] == t@[j as int]@);
        assert(tv[p as int] == t@[p as int]@);
    }
    assert(block_lets_from(tv, p as int, limit as nat, j as int) =~= Seq::<ConstraintView>::empty());
    assert(constraint_views(out@) =~= start + block_lets_from(tv, p as int, limit as nat, p + 1));
}

/// The assignments and conditions around the node with byte range `span` in a parsed tree.
pub fn constraints_in_tree(t: &Vec<SyntaxNode>, span: (usize, usize)) -> (r: (
    Vec<Constraint>,
    Vec<Constraint>,
))
    ensures
        (constraint_views(r.0@), constraint_views(r.1@)) == constraints_of(
            view_of(t),
            (span.0 as nat, span.1 as nat),
        ),
{
    let ghost tv = view_of(t);
    let mut assignments: Vec<Constraint> = Vec::new();
    let mut conditions: Vec<Constraint> = Vec::new();
    let k0 = match focus_position(t, span) {
        Some(k) => k,
        None => {
            assert(constraint_views(assignments@) =~= Seq::<ConstraintView>::empty());
            assert(constraint_views(conditions@) =~= Seq::<ConstraintView>::empty());
            return (assignments, conditions);
        },
    };
    let ghost whole = walk_constraints(tv, k0 as int);
    let mut k = k0;
    assert(constraint_views(assignments@) =~= Seq::<ConstraintView>::empty());
    assert(constraint_views(conditions@) =~= Seq::<ConstraintView>::empty());
    loop
        invariant
            tv == view_of(t),
            tv.len() == t@.len(),
            k < t@.len(),
            whole == walk_constraints(tv, k0 as int),
            focus_index(tv, (span.0 as nat, span.1 as nat)) == k0,
            constraint_views(assignments@) + walk_constraints(tv, k as int).0 == whole.0,
            constraint_views(conditions@) + walk_constraints(tv, k as int).1 == whole.1,
        decreases k,
    {
        let p = match parent_index(t, k) {
            Some(p) => p,
            None => {
                assert(walk_constraints(tv, k as int).0 =~= Seq::<ConstraintView>::empty());
                assert(walk_constraints(tv, k as int).1 =~= Seq::<ConstraintView>::empty());
                assert(constraint_views(assignments@) =~= whole.0);
                assert(constraint_views(conditions@) =~= whole.1);
                return (assignments, conditions);
            },
        };
        assert(tv[p as int] == t@[p as int]@);
        assert(tv[k as int] == t@[k as int]@);
        let ghost a0 = constraint_views(assignments@);
        let ghost c0 = constraint_views(conditions@);
        let ghost here_a = if tv[p as int].kind == "block"@ {
            block_lets_from(tv, p as int, tv[k as int].start, p + 1)
        } else {
            Seq::empty()
        };
        let ghost here_c = if tv[p as int].kind == "if_expression"@ {
            if_condition(tv, p as int, k as int)
        } else {
            Seq::empty()
        };
        if same_text(t[p].kind, "block") {
            block_lets(t, p, t[k].start_byte, &mut assignments);
        } else {
            assert(constraint_views(assignments@) =~= a0 + here_a);
        }
        if same_text(t[p].kind, "if_expression") {
            let cons = field_child_index(t, p, "consequence");
            let cond = field_child_index(t, p, "condition");
            match (cons, cond) {
                (Some(cs), Some(cd)) => {
                    assert(tv[cs as int] == t@[cs as int]@);
                    if t[cs].start_byte <= t[k].start_byte && t[k].end_byte <= t[cs].end_byte {
                        match binary_constraint_at(t, cd) {
                            Some(c) => {
                                conditions.push(c);
                            },
                            None => {},
                        }
                    }
                },
                _ => {},
            }
        }
        assert(constraint_views(conditions@) =~= c0 + here_c);
        assert(constraint_views(assignments@) =~= a0 + here_a);
        assert(a0 + here_a + walk_constraints(tv, p as int).0 =~= a0 + (here_a + walk_constraints(
            tv,
            p as int,
        ).0));
        assert(c0 + here_c + walk_constraints(tv, p as int).1 =~= c0 + (here_c + walk_constraints(
            tv,
            p as int,
        ).1));
        k = p;
    }
}

/// The block around (line, column) of a source text, if parsing finds one.
pub open spec fn block_at(source: Seq<char>, line: nat, column: nat) -> Option<Seq<char>> {
    match (syntax_of(source), focus_of(source, line, column)) {
        (Some(t), Some(span)) => block_of(t, span),
        _ => None,
    }
}

/// The top-level symbols of a source text; none where parsing fails.
pub open spec fn symbols_in(source: Seq<char>) -> Seq<SymbolView> {
    match syntax_of(source) {
        Some(t) => symbols_of(t),
        None => Seq::empty(),
    }
}

/// An operator text of the closed set `<`, `<=`, `>`, `>=`, `==`, `!=`.
pub open spec fn is_comparison(op: Seq<char>) -> bool {
    flipped(op) is Some
}

/// Every assignment compares with `==`, and every condition uses a comparison operator.
pub open spec fn well_formed_constraints(w: (Seq<ConstraintView>, Seq<ConstraintView>)) -> bool {
    &&& forall|i: int| 0 <= i < w.0.len() ==> (#[trigger] w.0[i]).1 == "=="@
    &&& forall|i: int| 0 <= i < w.1.len() ==> is_comparison((#[trigger] w.1[i]).1)
}

proof fn lemma_flipped_is_comparison(op: Seq<char>)
    requires
        flipped(op) is Some,
    ensures
        is_comparison(flipped(op).unwrap()),
{
}

proof fn lemma_block_lets_ops(t: Seq<SyntaxView>, p: int, limit: nat, j: int)
    ensures
        forall|i: int|
            0 <= i < block_lets_from(t, p, limit, j).len() ==> (#[trigger] block_lets_from(
                t,
                p,
                limit,
                j,
            )[i]).1 == "=="@,
    decreases t.len() - j,
{
    if !(j <= p || j >= t.len() || t[j].depth <= t[p].depth) {
        lemma_block_lets_ops(t, p, limit, j + 1);
        let rest = block_lets_from(t, p, limit, j + 1);
        let all = block_lets_from(t, p, limit, j);
        assert forall|i: int| 0 <= i < all.len() implies (#[trigger] all[i]).1 == "=="@ by {
            if all.len() > rest.len() && i > 0 {
                assert(all[i] == rest[i - 1]);
            }
        }
    }
}

proof fn lemma_walk_ops(t: Seq<SyntaxView>, k: int)
    ensures
        well_formed_constraints(walk_constraints(t, k)),
    decreases k,
{
    if 0 <= k < t.len() {
        let p = parent_of(t, k);
        if 0 <= p < k {
            lemma_walk_ops(t, p);
            lemma_block_lets_ops(t, p, t[k].start, p + 1);
            let cond = field_child(t, p, "condition"@);
            if cond >= 0 && binary_constraint(t, cond) is Some {
                let b = cond;
                let o = field_child(t, b, "operator"@);
                if flipped(t[o].text) is Some {
                    lemma_flipped_is_comparison(t[o].text);
                }
            }
            let w = walk_constraints(t, k);
            let rest = walk_constraints(t, p);
            let a = if t[p].kind == "block"@ {
                block_lets_from(t, p, t[k].start, p + 1)
            } else {
                Seq::empty()
            };
            let c = if t[p].kind == "if_expression"@ {
                if_condition(t, p, k)
            } else {
                Seq::empty()
            };
            assert forall|i: int| 0 <= i < w.0.len() implies (#[trigger] w.0[i]).1 == "=="@ by {
                if i < a.len() {
                    assert(w.0[i] == a[i]);
                } else {
                    assert(w.0[i] == rest.0[i - a.len()]);
                }
            }
            assert forall|i: int| 0 <= i < w.1.len() implies is_comparison((#[trigger] w.1[i]).1) by {
                if i < c.len() {
                    assert(w.1[i] == c[i]);
                } else {
                    assert(w.1[i] == rest.1[i - c.len()]);
                }
            }
        }
    }
}

/// The assignments and conditions around (line, column) of a source text.
pub open spec fn constraints_at(source: Seq<char>, line: nat, column: nat) -> (
    Seq<ConstraintView>,
    Seq<ConstraintView>,
) {
    match (syntax_of(source), focus_of(source, line, column)) {
        (Some(t), Some(span)) => constraints_of(t, span),
        _ => (Seq::empty(), Seq::empty()),
    }
}

// ---------------------------------------------------------------------------------------
// The helper over source text.
/// Block extraction, symbol listing and constraint extraction over Rust source text.
pub struct Extractor;

impl Extractor {
    pub fn new() -> (e: Extractor) {
        Extractor
    }

    /// The full code block around (line, column): the nearest enclosing item of a block kind,
    /// else the top-level item holding the point; `None` where parsing fails or neither exists.
    pub fn extract_block(&self, source_code: &str, line: usize, column: usize) -> (r: Option<
        String,
    >)
        ensures
            match r {
                Some(s) => block_at(source_code@, line as nat, column as nat) == Some(s@),
                None => block_at(source_code@, line as nat, column as nat) is None,
            },
    {
        let t = match parse_syntax(source_code) {
            Some(t) => t,
            None => return None,
        };
        let span = match focus_span(source_code, line, column) {
            Some(s) => s,
            None => return None,
        };
        block_in_tree(&t, span)
    }

    /// The top-level definitions of a source text, in order; none where parsing fails.
    pub fn get_defined_symbols(&self, source_code: &str) -> (r: Vec<SymbolInfo>)
        ensures
            r@.map_values(|s: SymbolInfo| s@) == symbols_in(source_code@),
    {
        match parse_syntax(source_code) {
            Some(t) => symbols_in_tree(&t),
            None => {
                let r: Vec<SymbolInfo> = Vec::new();
                assert(r@.map_values(|s: SymbolInfo| s@) =~= Seq::<SymbolView>::empty());
                r
            },
        }
    }

    /// The constant assignments before (line, column) and the conditions that guard it.
    pub fn extract_constraints(&self, source_code: &str, line: usize, column: usize) -> (r: (
        Vec<Constraint>,
        Vec<Constraint>,
    ))
        ensures
            (constraint_views(r.0@), constraint_views(r.1@)) == constraints_at(
                source_code@,
                line as nat,
                column as nat,
            ),
            forall|i: int| 0 <= i < r.0@.len() ==> (#[trigger] r.0@[i]).op@ == "=="@,
            forall|i: int| 0 <= i < r.1@.len() ==> is_comparison((#[trigger] r.1@[i]).op@),
    {
        let empty = || -> (r: (Vec<Constraint>, Vec<Constraint>))
            ensures
                constraint_views(r.0@) == Seq::<ConstraintView>::empty(),
                constraint_views(r.1@) == Seq::<ConstraintView>::empty(),
            {
                let a: Vec<Constraint> = Vec::new();
                let c: Vec<Constraint> = Vec::new();
                assert(constraint_views(a@) =~= Seq::<ConstraintView>::empty());
                assert(constraint_views(c@) =~= Seq::<ConstraintView>::empty());
                (a, c)
            };
        let r = match parse_syntax(source_code) {
            None => empty(),
            Some(t) => match focus_span(source_code, line, column) {
                None => empty(),
                Some(span) => constraints_in_tree(&t, span),
            },
        };
        proof {
            let w = constraints_at(source_code@, line as nat, column as nat);
            match (syntax_of(source_code@), focus_of(source_code@, line as nat, column as nat)) {
                (Some(tt), Some(sp)) => {
                    let k = focus_index(tt, sp);
                    if k >= 0 {
                        lemma_walk_ops(tt, k);
                    }
                },
                _ => {},
            }
            assert(well_formed_constraints(w));
            assert(constraint_views(r.0@) == w.0 && constraint_views(r.1@) == w.1);
            assert forall|i: int| 0 <= i < r.0@.len() implies (#[trigger] r.0@[i]).op@ == "=="@ by {
                assert(constraint_views(r.0@)[i] == r.0@[i]@);
                assert(w.0[i].1 == "=="@);
            }
            assert forall|i: int| 0 <= i < r.1@.len() implies is_comparison(
                (#[trigger] r.1@[i]).op@,
            ) by {
                assert(constraint_views(r.1@)[i] == r.1@[i]@);
                assert(is_comparison(w.1[i].1));
            }
        }
        r
    }
}

} // verus!
