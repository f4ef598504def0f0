//! The tool contract: a registry of named capabilities with their parameter
//! schemas, per-invocation context, and the shell exemplar. The exemplar's
//! decisions — argument validation, timeout selection, and the assembly of
//! the returned text from a process outcome — are all here; only the process
//! itself runs outside the library and hands back a [`ProcessOutcome`].

use crate::codec::parse_text;
use crate::errors::{ToolError, ToolErrorKind};
use vstd::prelude::*;
use vstd::string::*;

verus! {

// ---------------------------------------------------------------------------
// Tool registry
// ---------------------------------------------------------------------------
/// What a registry knows of one tool: its stable name, a description for the
/// provider, and the machine-readable parameter schema.
pub struct ToolSpec {
    pub name: String,
    pub description: String,
    pub parameters: String,
}

/// Mathematical image of a [`ToolSpec`].
pub struct ToolSpecView {
    pub name: Seq<char>,
    pub description: Seq<char>,
    pub parameters: Seq<char>,
}

impl View for ToolSpec {
    type V = ToolSpecView;

    open spec fn view(&self) -> ToolSpecView {
        ToolSpecView {
            name: self.name@,
            description: self.description@,
            parameters: self.parameters@,
        }
    }
}

impl DeepView for ToolSpec {
    type V = ToolSpecView;

    open spec fn deep_view(&self) -> ToolSpecView {
        self@
    }
}

impl Clone for ToolSpec {
    fn clone(&self) -> (r: Self)
        ensures
            r@ == self@,
    {
        ToolSpec {
            name: self.name.clone(),
            description: self.description.clone(),
            parameters: self.parameters.clone(),
        }
    }
}

/// Whether some tool of the list bears `name`.
pub open spec fn registry_has(tools: Seq<ToolSpecView>, name: Seq<char>) -> bool {
    exists|i: int| 0 <= i < tools.len() && (#[trigger] tools[i]).name == name
}

/// A table of tools, each under a unique name, registered once at setup.
pub struct ToolRegistry {
    tools: Vec<ToolSpec>,
}

impl ToolRegistry {
    /// The registered tools, in registration order.
    pub closed spec fn tools_view(self) -> Seq<ToolSpecView> {
        self.tools.deep_view()
    }

    /// Each name is registered at most once.
    pub open spec fn wf(self) -> bool {
        forall|i: int, j: int|
            0 <= i < j < self.tools_view().len() ==> (#[trigger] self.tools_view()[i]).name != (
            #[trigger] self.tools_view()[j]).name
    }

    /// An empty registry.
    pub fn new() -> (r: ToolRegistry)
        ensures
            r.wf(),
            r.tools_view() == Seq::<ToolSpecView>::empty(),
    {
        let r = ToolRegistry { tools: Vec::new() };
        proof {
            assert(r.tools_view() =~= Seq::<ToolSpecView>::empty());
        }
        r
    }

    /// Add a tool under a fresh name; a name already taken leaves the
    /// registry unchanged and reports failure.
    pub fn register(&mut self, tool: ToolSpec) -> (r: bool)
        requires
            old(self).wf(),
        ensures
            final (self).wf(),
            r == !registry_has(old(self).tools_view(), tool@.name),
            r ==> final (self).tools_view() == old(self).tools_view().push(tool@),
            !r ==> final (self).tools_view() == old(self).tools_view(),
    {
        if self.contains(tool.name.as_str()) {
            return false;
        }
        let ghost prev_raw = self.tools@;
        let ghost prev_dv = self.tools.deep_view();
        self.tools.push(tool);
        proof {
            let dv = self.tools.deep_view();
            let target = prev_dv.push(self.tools@[prev_raw.len() as int]@);
            assert forall|q: int| 0 <= q < dv.len() implies dv[q] == target[q] by {
                if q < prev_raw.len() {
                    assert(self.tools@[q] == prev_raw[q]);
                    assert(prev_dv[q] == prev_raw[q].deep_view());
                }
            }
            assert(dv =~= target);
            assert forall|i: int, j: int| 0 <= i < j < dv.len() implies (#[trigger] dv[i]).name
                != (#[trigger] dv[j]).name by {
                if j < prev_dv.len() {
                    assert(prev_dv[i].name != prev_dv[j].name);
                } else {
                    assert(!registry_has(prev_dv, dv[j].name));
                    assert(prev_dv[i].name != dv[j].name);
                }
            }
        }
        true
    }

    /// Whether a tool of this name is registered.
    pub fn contains(&self, name: &str) -> (r: bool)
        ensures
            r == registry_has(self.tools_view(), name@),
    {
        let name_s = name.to_owned();
        let n = self.tools.len();
        let mut i: usize = 0;
        while i < n
            invariant
                n == self.tools@.len(),
                i <= n,
                name_s@ == name@,
                forall|q: int| 0 <= q < i ==> (#[trigger] self.tools_view()[q]).name != name@,
            decreases n - i,
        {
            if self.tools[i].name == name_s {
                proof {
                    assert(self.tools_view()[i as int].name == name@);
                }
                return true;
            }
            proof {
                assert(self.tools_view()[i as int] == self.tools@[i as int]@);
            }
            i += 1;
        }
        false
    }

    /// The schema of the named tool, if registered.
    pub fn find(&self, name: &str) -> (r: Option<ToolSpec>)
        ensures
            match r {
                Some(t) => registry_has(self.tools_view(), name@) && t@.name == name@ && (exists|
                    i: int,
                |
                    0 <= i < self.tools_view().len() && #[trigger] self.tools_view()[i] == t@),
                None => !registry_has(self.tools_view(), name@),
            },
    {
        let name_s = name.to_owned();
        let n = self.tools.len();
        let mut i: usize = 0;
        while i < n
            invariant
                n == self.tools@.len(),
                i <= n,
                name_s@ == name@,
                forall|q: int| 0 <= q < i ==> (#[trigger] self.tools_view()[q]).name != name@,
            decreases n - i,
        {
            if self.tools[i].name == name_s {
                let t = self.tools[i].clone();
                proof {
                    assert(self.tools_view()[i as int] == self.tools@[i as int]@);
                }
                return Some(t);
            }
            proof {
                assert(self.tools_view()[i as int] == self.tools@[i as int]@);
            }
            i += 1;
        }
        None
    }

    /// All registered schemas, in registration order, for a provider request.
    pub fn schemas(&self) -> (r: &Vec<ToolSpec>)
        ensures
            r.deep_view() == self.tools_view(),
    {
        &self.tools
    }

    /// The number of registered tools.
    pub fn len(&self) -> (n: usize)
        ensures
            n == self.tools_view().len(),
    {
        self.tools.len()
    }
}

/// The tool-role error text fed back to the provider when no tool bears the
/// requested name; the round goes on so the provider can self-correct.
pub fn unresolved_tool_error(name: &str) -> (e: ToolError)
    ensures
        e@.kind == ToolErrorKind::Unresolved,
        e@.message == "Tool not found: "@ + name@,
{
    let mut m = String::from_str("Tool not found: ");
    m.append(name);
    ToolError::new(ToolErrorKind::Unresolved, m)
}

// ---------------------------------------------------------------------------
// Tool context
// ---------------------------------------------------------------------------
/// Per-invocation configuration a tool sees: an optional working-directory
/// scope.
pub struct ToolContext {
    pub workspace: Option<String>,
}

/// Mathematical image of a [`ToolContext`].
pub struct ToolContextView {
    pub workspace: Option<Seq<char>>,
}

impl View for ToolContext {
    type V = ToolContextView;

    open spec fn view(&self) -> ToolContextView {
        ToolContextView { workspace: self.workspace.deep_view() }
    }
}

impl ToolContext {
    /// A context without a workspace scope.
    pub fn new() -> (r: ToolContext)
        ensures
            r@.workspace is None,
    {
        ToolContext { workspace: None }
    }

    /// The same context scoped to the given working directory.
    pub fn with_workspace(self, workspace: &str) -> (r: ToolContext)
        ensures
            r@.workspace == Some(workspace@),
    {
        ToolContext { workspace: Some(workspace.to_owned()) }
    }
}

// ---------------------------------------------------------------------------
// Decimal rendering
// ---------------------------------------------------------------------------
/// The decimal digit character of `d`.
pub open spec fn digit_char(d: int) -> char {
    if d == 0 {
        '0'
    } else if d == 1 {
        '1'
    } else if d == 2 {
        '2'
    } else if d == 3 {
        '3'
    } else if d == 4 {
        '4'
    } else if d == 5 {
        '5'
    } else if d == 6 {
        '6'
    } else if d == 7 {
        '7'
    } else if d == 8 {
        '8'
    } else {
        '9'
    }
}

/// The decimal digits of a non-negative number, most significant first.
pub open spec fn dec_nat(n: int) -> Seq<char>
    decreases n,
{
    if n < 10 {
        seq![digit_char(n)]
    } else {
        dec_nat(n / 10) + seq![digit_char(n % 10)]
    }
}

/// The decimal rendering of a possibly negative number.
pub open spec fn dec_int(n: int) -> Seq<char> {
    if n < 0 {
        seq!['-'] + dec_nat(-n)
    } else {
        dec_nat(n)
    }
}

/// Render a non-negative number in decimal.
pub fn u64_to_string(n: u64) -> (r: String)
    ensures
        r@ == dec_nat(n as int),
    decreases n,
{
    let d: u64 = n % 10;
    let c: char = if d == 0 {
        '0'
    } else if d == 1 {
        '1'
    } else if d == 2 {
        '2'
    } else if d == 3 {
        '3'
    } else if d == 4 {
        '4'
    } else if d == 5 {
        '5'
    } else if d == 6 {
        '6'
    } else if d == 7 {
        '7'
    } else if d == 8 {
        '8'
    } else {
        '9'
    };
    if n < 10 {
        let mut r = String::new();
        crate::codec::push_char(&mut r, c);
        proof {
            assert(r@ =~= seq![digit_char(n as int)]);
        }
        r
    } else {
        let mut r = u64_to_string(n / 10);
        crate::codec::push_char(&mut r, c);
        proof {
            assert(r@ =~= dec_nat(n as int / 10) + seq![digit_char(n as int % 10)]);
        }
        r
    }
}

/// Render a possibly negative number in decimal.
pub fn i64_to_string(n: i64) -> (r: String)
    ensures
        r@ == dec_int(n as int),
{
    if n >= 0 {
        u64_to_string(n as u64)
    } else {
        let mag: u64 = if n == i64::MIN {
            9223372036854775808u64
        } else {
            (-n) as u64
        };
        proof {
            assert(mag as int == -(n as int));
        }
        let mut r = String::from_str("-");
        let digits = u64_to_string(mag);
        r.append(digits.as_str());
        proof {
            reveal_strlit("-");
            assert(r@ =~= seq!['-'] + dec_nat(mag as int));
        }
        r
    }
}


// ---------------------------------------------------------------------------
// Tool arguments: a flat object of named scalar values
// ---------------------------------------------------------------------------
/// One scalar argument value.
#[derive(PartialEq, Eq, Debug)]
pub enum ArgValue {
    Text(String),
    Int(u64),
    Flag(bool),
    Null,
}

/// Mathematical image of an [`ArgValue`].
pub enum ArgValueView {
    Text(Seq<char>),
    Int(u64),
    Flag(bool),
    Null,
}

impl View for ArgValue {
    type V = ArgValueView;

    open spec fn view(&self) -> ArgValueView {
        match self {
            ArgValue::Text(t) => ArgValueView::Text(t@),
            ArgValue::Int(n) => ArgValueView::Int(*n),
            ArgValue::Flag(b) => ArgValueView::Flag(*b),
            ArgValue::Null => ArgValueView::Null,
        }
    }
}

/// Whitespace accepted between argument tokens.
pub open spec fn is_ws(c: char) -> bool {
    c == ' ' || c == '\n' || c == '\t' || c == '\r'
}

/// The input with leading whitespace removed.
pub open spec fn skip_ws(s: Seq<char>) -> Seq<char>
    decreases s.len(),
{
    if s.len() > 0 && is_ws(s[0]) {
        skip_ws(s.skip(1))
    } else {
        s
    }
}

/// Skipping whitespace never lengthens the input.
pub proof fn lemma_skip_ws_len(s: Seq<char>)
    ensures
        skip_ws(s).len() <= s.len(),
    decreases s.len(),
{
    if s.len() > 0 && is_ws(s[0]) {
        lemma_skip_ws_len(s.skip(1));
    }
}

/// Whether `c` is a decimal digit.
pub open spec fn is_digit(c: char) -> bool {
    '0' <= c && c <= '9'
}

/// The value of a digit character.
pub open spec fn digit_value(c: char) -> u64 {
    (c as u32 - 48) as u64
}

/// Accumulate decimal digits onto `acc`; too large a number is malformed.
pub open spec fn parse_nat_loop(s: Seq<char>, acc: u64) -> Option<(u64, Seq<char>)>
    decreases s.len(),
{
    if s.len() == 0 || !is_digit(s[0]) {
        Some((acc, s))
    } else {
        let d = digit_value(s[0]);
        if acc > (u64::MAX - d) / 10 {
            None
        } else {
            parse_nat_loop(s.skip(1), (acc * 10 + d) as u64)
        }
    }
}

/// Parse a non-negative decimal number.
pub open spec fn parse_nat(s: Seq<char>) -> Option<(u64, Seq<char>)> {
    if s.len() > 0 && is_digit(s[0]) {
        parse_nat_loop(s, 0)
    } else {
        None
    }
}

/// A successful number parse consumes at least one digit.
pub proof fn lemma_parse_nat_consumes(s: Seq<char>)
    ensures
        parse_nat(s) matches Some((n, r)) ==> r.len() < s.len(),
{
    if s.len() > 0 && is_digit(s[0]) {
        lemma_parse_nat_loop_bound(s, 0);
    }
}

proof fn lemma_parse_nat_loop_bound(s: Seq<char>, acc: u64)
    requires
        s.len() > 0 && is_digit(s[0]),
    ensures
        parse_nat_loop(s, acc) matches Some((n, r)) ==> r.len() < s.len(),
    decreases s.len(),
{
    let d = digit_value(s[0]);
    if acc <= (u64::MAX - d) / 10 {
        let acc2 = (acc * 10 + d) as u64;
        if s.skip(1).len() > 0 && is_digit(s.skip(1)[0]) {
            lemma_parse_nat_loop_bound(s.skip(1), acc2);
        }
    }
}

/// Parse one scalar value.
pub open spec fn parse_arg_value(s: Seq<char>) -> Option<(ArgValueView, Seq<char>)> {
    if s.len() > 0 && s[0] == '"' {
        match parse_text(s.skip(1)) {
            None => None,
            Some((t, r)) => Some((ArgValueView::Text(t), r)),
        }
    } else if s.len() > 0 && is_digit(s[0]) {
        match parse_nat(s) {
            None => None,
            Some((n, r)) => Some((ArgValueView::Int(n), r)),
        }
    } else {
        match crate::codec::after_prefix(s, "true"@) {
            Some(r) => Some((ArgValueView::Flag(true), r)),
            None => match crate::codec::after_prefix(s, "false"@) {
                Some(r) => Some((ArgValueView::Flag(false), r)),
                None => match crate::codec::after_prefix(s, "null"@) {
                    Some(r) => Some((ArgValueView::Null, r)),
                    None => None,
                },
            },
        }
    }
}

/// A successful value parse consumes part of the input.
pub proof fn lemma_parse_arg_value_consumes(s: Seq<char>)
    ensures
        parse_arg_value(s) matches Some((v, r)) ==> r.len() < s.len(),
{
    reveal_strlit("true");
    reveal_strlit("false");
    reveal_strlit("null");
    if s.len() > 0 && s[0] == '"' {
        crate::codec::lemma_parse_text_consumes(s.skip(1));
    } else if s.len() > 0 && is_digit(s[0]) {
        lemma_parse_nat_consumes(s);
    }
}

/// Parse one `"key": value` pair.
pub open spec fn parse_pair(s: Seq<char>) -> Option<((Seq<char>, ArgValueView), Seq<char>)> {
    if s.len() > 0 && s[0] == '"' {
        match parse_text(s.skip(1)) {
            None => None,
            Some((key, s1)) => {
                let s2 = skip_ws(s1);
                if s2.len() > 0 && s2[0] == ':' {
                    let s3 = skip_ws(s2.skip(1));
                    match parse_arg_value(s3) {
                        None => None,
                        Some((v, r)) => Some(((key, v), r)),
                    }
                } else {
                    None
                }
            },
        }
    } else {
        None
    }
}

/// A successful pair parse consumes part of the input.
pub proof fn lemma_parse_pair_consumes(s: Seq<char>)
    ensures
        parse_pair(s) matches Some((p, r)) ==> r.len() < s.len(),
{
    if s.len() > 0 && s[0] == '"' {
        crate::codec::lemma_parse_text_consumes(s.skip(1));
        if parse_text(s.skip(1)) is Some {
            let (key, s1) = parse_text(s.skip(1)).unwrap();
            lemma_skip_ws_len(s1);
            let s2 = skip_ws(s1);
            if s2.len() > 0 && s2[0] == ':' {
                lemma_skip_ws_len(s2.skip(1));
                let s3 = skip_ws(s2.skip(1));
                lemma_parse_arg_value_consumes(s3);
            }
        }
    }
}

/// Parse the continuation of a pair list: a comma and another pair, or the
/// closing brace.
pub open spec fn parse_pairs_rest(s: Seq<char>) -> Option<
    (Seq<(Seq<char>, ArgValueView)>, Seq<char>),
>
    decreases s.len(),
    via parse_pairs_rest_decreases
{
    let s0 = skip_ws(s);
    if s0.len() == 0 {
        None
    } else if s0[0] == '}' {
        Some((Seq::empty(), s0.skip(1)))
    } else if s0[0] == ',' {
        let s1 = skip_ws(s0.skip(1));
        match parse_pair(s1) {
            None => None,
            Some((p, r)) => match parse_pairs_rest(r) {
                None => None,
                Some((ps, r2)) => Some((seq![p] + ps, r2)),
            },
        }
    } else {
        None
    }
}

#[via_fn]
proof fn parse_pairs_rest_decreases(s: Seq<char>) {
    lemma_skip_ws_len(s);
    let s0 = skip_ws(s);
    if s0.len() > 0 && s0[0] == ',' {
        lemma_skip_ws_len(s0.skip(1));
        let s1 = skip_ws(s0.skip(1));
        lemma_parse_pair_consumes(s1);
    }
}

/// Parse a whole flat argument object; it must span the whole input.
pub open spec fn parse_args_doc(s: Seq<char>) -> Option<Seq<(Seq<char>, ArgValueView)>> {
    let s0 = skip_ws(s);
    if s0.len() == 0 || s0[0] != '{' {
        None
    } else {
        let s1 = skip_ws(s0.skip(1));
        if s1.len() > 0 && s1[0] == '}' {
            if skip_ws(s1.skip(1)).len() == 0 {
                Some(Seq::empty())
            } else {
                None
            }
        } else {
            match parse_pair(s1) {
                None => None,
                Some((p, r)) => match parse_pairs_rest(r) {
                    None => None,
                    Some((ps, r2)) => if skip_ws(r2).len() == 0 {
                        Some(seq![p] + ps)
                    } else {
                        None
                    },
                },
            }
        }
    }
}


impl DeepView for ArgValue {
    type V = ArgValueView;

    open spec fn deep_view(&self) -> ArgValueView {
        self@
    }
}

/// The first value bound to `key` in a pair list.
pub open spec fn pair_find(ps: Seq<(Seq<char>, ArgValueView)>, key: Seq<char>) -> Option<
    ArgValueView,
>
    decreases ps.len(),
{
    if ps.len() == 0 {
        None
    } else if ps[0].0 == key {
        Some(ps[0].1)
    } else {
        pair_find(ps.skip(1), key)
    }
}

// ---------------------------------------------------------------------------
// Executable argument parsing
// ---------------------------------------------------------------------------
/// Position after any leading whitespace.
fn skip_ws_at(v: &Vec<char>, i: usize) -> (j: usize)
    requires
        i <= v.len(),
    ensures
        i <= j <= v.len(),
        v@.skip(j as int) == skip_ws(v@.skip(i as int)),
    decreases v.len() - i,
{
    proof {
        assert(v@.skip(i as int).len() == v.len() - i);
    }
    if i < v.len() {
        let c = v[i];
        proof {
            assert(v@.skip(i as int)[0] == v@[i as int]);
        }
        if c == ' ' || c == '\n' || c == '\t' || c == '\r' {
            proof {
                assert(v@.skip(i as int).skip(1) =~= v@.skip(i + 1));
            }
            return skip_ws_at(v, i + 1);
        }
    }
    i
}

/// Accumulate decimal digits at position `i`.
fn parse_nat_loop_at(v: &Vec<char>, i: usize, acc: u64) -> (r: Option<(u64, usize)>)
    requires
        i <= v.len(),
    ensures
        match r {
            Some((n, j)) => i <= j <= v.len() && parse_nat_loop(v@.skip(i as int), acc) == Some(
                (n, v@.skip(j as int)),
            ),
            None => parse_nat_loop(v@.skip(i as int), acc) is None,
        },
    decreases v.len() - i,
{
    proof {
        assert(v@.skip(i as int).len() == v.len() - i);
        if i < v.len() {
            assert(v@.skip(i as int)[0] == v@[i as int]);
        }
    }
    if i == v.len() {
        return Some((acc, i));
    }
    let c = v[i];
    if c < '0' || c > '9' {
        return Some((acc, i));
    }
    let d: u64 = (c as u32 - 48) as u64;
    if acc > (u64::MAX - d) / 10 {
        return None;
    }
    proof {
        assert(v@.skip(i as int).skip(1) =~= v@.skip(i + 1));
        assert(acc * 10 + d <= u64::MAX);
    }
    parse_nat_loop_at(v, i + 1, acc * 10 + d)
}

/// Parse one scalar value at position `i`.
fn parse_arg_value_at(v: &Vec<char>, i: usize) -> (r: Option<(ArgValue, usize)>)
    requires
        i <= v.len(),
    ensures
        match r {
            Some((a, j)) => i <= j <= v.len() && parse_arg_value(v@.skip(i as int)) == Some(
                (a@, v@.skip(j as int)),
            ),
            None => parse_arg_value(v@.skip(i as int)) is None,
        },
{
    proof {
        assert(v@.skip(i as int).len() == v.len() - i);
        if i < v.len() {
            assert(v@.skip(i as int)[0] == v@[i as int]);
        }
    }
    if i < v.len() && v[i] == '"' {
        proof {
            assert(v@.skip(i as int).skip(1) =~= v@.skip(i + 1));
        }
        match crate::codec::parse_text_at(v, i + 1) {
            None => None,
            Some((t, j)) => Some((ArgValue::Text(t), j)),
        }
    } else if i < v.len() && '0' <= v[i] && v[i] <= '9' {
        match parse_nat_loop_at(v, i, 0) {
            None => None,
            Some((n, j)) => Some((ArgValue::Int(n), j)),
        }
    } else {
        match crate::codec::expect_lit(v, i, "true") {
            Some(j) => Some((ArgValue::Flag(true), j)),
            None => match crate::codec::expect_lit(v, i, "false") {
                Some(j) => Some((ArgValue::Flag(false), j)),
                None => match crate::codec::expect_lit(v, i, "null") {
                    Some(j) => Some((ArgValue::Null, j)),
                    None => None,
                },
            },
        }
    }
}

/// Parse one pair at position `i`.
fn parse_pair_at(v: &Vec<char>, i: usize) -> (r: Option<((String, ArgValue), usize)>)
    requires
        i <= v.len(),
    ensures
        match r {
            Some(((key, a), j)) => i <= j <= v.len() && parse_pair(v@.skip(i as int)) == Some(
                ((key@, a@), v@.skip(j as int)),
            ),
            None => parse_pair(v@.skip(i as int)) is None,
        },
{
    proof {
        assert(v@.skip(i as int).len() == v.len() - i);
        if i < v.len() {
            assert(v@.skip(i as int)[0] == v@[i as int]);
        }
    }
    if i < v.len() && v[i] == '"' {
        proof {
            assert(v@.skip(i as int).skip(1) =~= v@.skip(i + 1));
        }
        match crate::codec::parse_text_at(v, i + 1) {
            None => None,
            Some((key, j1)) => {
                let j2 = skip_ws_at(v, j1);
                proof {
                    assert(v@.skip(j2 as int).len() == v.len() - j2);
                    if j2 < v.len() {
                        assert(v@.skip(j2 as int)[0] == v@[j2 as int]);
                    }
                }
                if j2 < v.len() && v[j2] == ':' {
                    proof {
                        assert(v@.skip(j2 as int).skip(1) =~= v@.skip(j2 + 1));
                    }
                    let j3 = skip_ws_at(v, j2 + 1);
                    match parse_arg_value_at(v, j3) {
                        None => None,
                        Some((a, j4)) => Some(((key, a), j4)),
                    }
                } else {
                    None
                }
            },
        }
    } else {
        None
    }
}

/// What a scan of the remaining pairs found for the shell tool.
struct ArgScan {
    command: Option<ArgValue>,
    timeout: Option<ArgValue>,
}

/// Parse the continuation of a pair list, keeping only what the shell tool
/// reads: the first `command` and the first `timeout` value.
fn parse_pairs_rest_scan(v: &Vec<char>, i: usize) -> (r: Option<(ArgScan, usize)>)
    requires
        i <= v.len(),
    ensures
        match r {
            Some((sc, j)) => i <= j <= v.len() && (parse_pairs_rest(v@.skip(i as int)) matches Some(
                (ps, rr),
            ) && rr == v@.skip(j as int) && sc.command.deep_view() == pair_find(ps, "command"@)
                && sc.timeout.deep_view() == pair_find(ps, "timeout"@)),
            None => parse_pairs_rest(v@.skip(i as int)) is None,
        },
    decreases v.len() - i,
{
    proof {
        lemma_skip_ws_len(v@.skip(i as int));
    }
    let j0 = skip_ws_at(v, i);
    proof {
        assert(v@.skip(j0 as int).len() == v.len() - j0);
        if j0 < v.len() {
            assert(v@.skip(j0 as int)[0] == v@[j0 as int]);
        }
    }
    if j0 == v.len() {
        return None;
    }
    let c = v[j0];
    if c == '}' {
        proof {
            assert(v@.skip(j0 as int).skip(1) =~= v@.skip(j0 + 1));
            assert(pair_find(Seq::<(Seq<char>, ArgValueView)>::empty(), "command"@) is None);
            assert(pair_find(Seq::<(Seq<char>, ArgValueView)>::empty(), "timeout"@) is None);
        }
        let sc = ArgScan { command: None, timeout: None };
        return Some((sc, j0 + 1));
    }
    if c == ',' {
        proof {
            assert(v@.skip(j0 as int).skip(1) =~= v@.skip(j0 + 1));
        }
        let j1 = skip_ws_at(v, j0 + 1);
        match parse_pair_at(v, j1) {
            None => None,
            Some(((key, a), j2)) => {
                match parse_pairs_rest_scan(v, j2) {
                    None => None,
                    Some((sc, j3)) => {
                        let ghost p = (key@, a@);
                        let ghost ps = parse_pairs_rest(v@.skip(j2 as int)).unwrap().0;
                        proof {
                            assert((seq![p] + ps).skip(1) =~= ps);
                            assert((seq![p] + ps)[0] == p);
                        }
                        let is_cmd = key == String::from_str("command");
                        let is_tmo = key == String::from_str("timeout");
                        proof {
                            reveal_strlit("command");
                            reveal_strlit("timeout");
                            assert("command"@[0] == 'c' && "timeout"@[0] == 't');
                            assert("command"@ != "timeout"@);
                        }
                        let combined = if is_cmd {
                            ArgScan { command: Some(a), timeout: sc.timeout }
                        } else if is_tmo {
                            ArgScan { command: sc.command, timeout: Some(a) }
                        } else {
                            sc
                        };
                        Some((combined, j3))
                    },
                }
            },
        }
    } else {
        None
    }
}

/// The arguments the shell exemplar accepts.
#[derive(PartialEq, Eq, Debug)]
pub struct ShellArgs {
    pub command: String,
    pub timeout_secs: u64,
}

/// What the shell tool reads from a parsed argument object: the required
/// `command` text and the `timeout`, in time units, defaulting to 60.
pub open spec fn shell_args_of(ps: Seq<(Seq<char>, ArgValueView)>) -> Option<(Seq<char>, u64)> {
    match pair_find(ps, "command"@) {
        Some(ArgValueView::Text(cmd)) => Some(
            (
                cmd,
                match pair_find(ps, "timeout"@) {
                    Some(ArgValueView::Int(n)) => n,
                    _ => 60,
                },
            ),
        ),
        _ => None,
    }
}

/// Validate the shell tool's arguments. The arguments must form a flat
/// object; `command` must be present as text. A malformed object or a
/// missing command is a bad-arguments tool error, never a panic.
pub fn parse_shell_args(arguments: &str) -> (r: Result<ShellArgs, ToolError>)
    ensures
        match r {
            Ok(a) => parse_args_doc(arguments@) matches Some(ps) && shell_args_of(ps) == Some(
                (a.command@, a.timeout_secs),
            ),
            Err(e) => e@.kind == ToolErrorKind::BadArguments && match parse_args_doc(arguments@) {
                None => e@.message == "Invalid tool arguments"@,
                Some(ps) => shell_args_of(ps) is None && e@.message
                    == "Missing 'command' argument"@,
            },
        },
{
    let v = crate::codec::chars_of(arguments);
    proof {
        assert(v@.skip(0) =~= arguments@);
    }
    let j0 = skip_ws_at(&v, 0);
    proof {
        assert(v@.skip(j0 as int).len() == v.len() - j0);
        if j0 < v.len() {
            assert(v@.skip(j0 as int)[0] == v@[j0 as int]);
        }
    }
    if j0 == v.len() || v[j0] != '{' {
        return Err(ToolError::new(
            ToolErrorKind::BadArguments,
            String::from_str("Invalid tool arguments"),
        ));
    }
    proof {
        assert(v@.skip(j0 as int).skip(1) =~= v@.skip(j0 + 1));
    }
    let j1 = skip_ws_at(&v, j0 + 1);
    proof {
        assert(v@.skip(j1 as int).len() == v.len() - j1);
        if j1 < v.len() {
            assert(v@.skip(j1 as int)[0] == v@[j1 as int]);
        }
    }
    let cmd_val: Option<ArgValue>;
    let tmo_val: Option<ArgValue>;
    if j1 < v.len() && v[j1] == '}' {
        proof {
            assert(v@.skip(j1 as int).skip(1) =~= v@.skip(j1 + 1));
        }
        let j2 = skip_ws_at(&v, j1 + 1);
        proof {
            assert(v@.skip(j2 as int).len() == v.len() - j2);
        }
        if j2 != v.len() {
            return Err(ToolError::new(
                ToolErrorKind::BadArguments,
                String::from_str("Invalid tool arguments"),
            ));
        }
        cmd_val = None;
        tmo_val = None;
        proof {
            assert(parse_args_doc(arguments@) == Some(Seq::<(Seq<char>, ArgValueView)>::empty()));
            assert(pair_find(Seq::<(Seq<char>, ArgValueView)>::empty(), "command"@) is None);
            assert(pair_find(Seq::<(Seq<char>, ArgValueView)>::empty(), "timeout"@) is None);
        }
    } else {
        let ((key, a), j2) = match parse_pair_at(&v, j1) {
            None => {
                return Err(ToolError::new(
                    ToolErrorKind::BadArguments,
                    String::from_str("Invalid tool arguments"),
                ));
            },
            Some(x) => x,
        };
        let (sc, j3) = match parse_pairs_rest_scan(&v, j2) {
            None => {
                return Err(ToolError::new(
                    ToolErrorKind::BadArguments,
                    String::from_str("Invalid tool arguments"),
                ));
            },
            Some(x) => x,
        };
        let j4 = skip_ws_at(&v, j3);
        proof {
            assert(v@.skip(j4 as int).len() == v.len() - j4);
        }
        if j4 != v.len() {
            return Err(ToolError::new(
                ToolErrorKind::BadArguments,
                String::from_str("Invalid tool arguments"),
            ));
        }
        let ghost p = (key@, a@);
        let ghost ps_rest = parse_pairs_rest(v@.skip(j2 as int)).unwrap().0;
        proof {
            assert((seq![p] + ps_rest).skip(1) =~= ps_rest);
            assert((seq![p] + ps_rest)[0] == p);
            assert(parse_args_doc(arguments@) == Some(seq![p] + ps_rest));
        }
        let is_cmd = key == String::from_str("command");
        let is_tmo = key == String::from_str("timeout");
        proof {
            reveal_strlit("command");
            reveal_strlit("timeout");
            assert("command"@[0] == 'c' && "timeout"@[0] == 't');
            assert("command"@ != "timeout"@);
        }
        if is_cmd {
            cmd_val = Some(a);
            tmo_val = sc.timeout;
        } else if is_tmo {
            cmd_val = sc.command;
            tmo_val = Some(a);
        } else {
            cmd_val = sc.command;
            tmo_val = sc.timeout;
        }
    }
    match cmd_val {
        Some(ArgValue::Text(cmd)) => {
            let timeout_secs: u64 = match tmo_val {
                Some(ArgValue::Int(n)) => n,
                _ => 60,
            };
            Ok(ShellArgs { command: cmd, timeout_secs })
        },
        _ => Err(ToolError::new(
            ToolErrorKind::BadArguments,
            String::from_str("Missing 'command' argument"),
        )),
    }
}


// ---------------------------------------------------------------------------
// The shell exemplar
// ---------------------------------------------------------------------------
/// What the text returned by the shell tool reads: captured standard output,
/// then, under a separator, any diverted error output, then an exit-status
/// annotation when the process did not exit successfully. Operational
/// failure is reported as data in this text, never as a tool error.
pub open spec fn rendered_output(
    stdout: Seq<char>,
    stderr: Seq<char>,
    success: bool,
    code: int,
) -> Seq<char> {
    let base = if stderr.len() == 0 {
        stdout
    } else if stdout.len() == 0 {
        stderr
    } else {
        stdout + "\n--- stderr ---\n"@ + stderr
    };
    if success {
        base
    } else {
        base + "\n[Exit code: "@ + dec_int(code) + "]"@
    }
}

/// Assemble the shell tool's returned text from a completed process.
pub fn render_shell_output(stdout: &str, stderr: &str, success: bool, exit_code: i64) -> (r:
    String)
    ensures
        r@ == rendered_output(stdout@, stderr@, success, exit_code as int),
{
    let mut out = String::new();
    if !stdout.is_empty() {
        out.append(stdout);
    }
    if !stderr.is_empty() {
        if !stdout.is_empty() {
            out.append("\n--- stderr ---\n");
        }
        out.append(stderr);
    }
    if !success {
        out.append("\n[Exit code: ");
        let digits = i64_to_string(exit_code);
        out.append(digits.as_str());
        out.append("]");
    }
    proof {
        assert(out@ =~= rendered_output(stdout@, stderr@, success, exit_code as int));
    }
    out
}

/// How the attempt to run the underlying process ended. The process itself
/// runs outside the library; this value carries everything the tool's
/// contract depends on back in.
pub enum ProcessOutcome {
    /// The process ran to completion within the timeout.
    Completed { stdout: String, stderr: String, success: bool, exit_code: i64 },
    /// The configured timeout elapsed first.
    TimedOut,
    /// The process could not be started at all.
    SpawnFailed { message: String },
}

/// Turn a process outcome into the shell tool's result: completed work is
/// text (whatever its exit status), a timeout is a timeout-kind error, and a
/// spawn failure a spawn-kind error.
pub fn shell_outcome_text(outcome: &ProcessOutcome, timeout_secs: u64) -> (r: Result<
    String,
    ToolError,
>)
    ensures
        match outcome {
            ProcessOutcome::Completed { stdout, stderr, success, exit_code } => r matches Ok(t)
                && t@ == rendered_output(stdout@, stderr@, *success, *exit_code as int),
            ProcessOutcome::TimedOut => r matches Err(e) && e@.kind == ToolErrorKind::Timeout
                && e@.message == "Command timed out after "@ + dec_nat(timeout_secs as int) + "s"@,
            ProcessOutcome::SpawnFailed { message } => r matches Err(e) && e@.kind
                == ToolErrorKind::Spawn && e@.message == "Failed to execute command: "@ + message@,
        },
{
    match outcome {
        ProcessOutcome::Completed { stdout, stderr, success, exit_code } => {
            Ok(render_shell_output(stdout.as_str(), stderr.as_str(), *success, *exit_code))
        },
        ProcessOutcome::TimedOut => {
            let mut m = String::from_str("Command timed out after ");
            let digits = u64_to_string(timeout_secs);
            m.append(digits.as_str());
            m.append("s");
            proof {
                assert(m@ =~= "Command timed out after "@ + dec_nat(timeout_secs as int) + "s"@);
            }
            Err(ToolError::new(ToolErrorKind::Timeout, m))
        },
        ProcessOutcome::SpawnFailed { message } => {
            let mut m = String::from_str("Failed to execute command: ");
            m.append(message.as_str());
            Err(ToolError::new(ToolErrorKind::Spawn, m))
        },
    }
}

/// The shell-execution tool: runs a command string through the system
/// command interpreter, in the context's workspace when one is given, and
/// returns the combined output. The process spawn lives outside the library;
/// everything the tool decides is here.
pub struct ShellTool;

impl ShellTool {
    /// The registry name of the tool.
    pub fn name(&self) -> (r: &'static str)
        ensures
            r@ == "shell"@,
    {
        "shell"
    }

    /// What the provider is told the tool does.
    pub fn description(&self) -> (r: &'static str)
        ensures
            r@ == "Execute a shell command and return the output"@,
    {
        "Execute a shell command and return the output"
    }

    /// The machine-readable parameter schema: a required `command` string
    /// and an optional integer `timeout`.
    pub fn parameters(&self) -> (r: String)
        ensures
            r@
                == "{\"type\":\"object\",\"properties\":{\"command\":{\"type\":\"string\",\"description\":\"The shell command to execute\"},\"timeout\":{\"type\":\"integer\",\"description\":\"Timeout in seconds (default: 60)\"}},\"required\":[\"command\"]}"@,
    {
        String::from_str(
            "{\"type\":\"object\",\"properties\":{\"command\":{\"type\":\"string\",\"description\":\"The shell command to execute\"},\"timeout\":{\"type\":\"integer\",\"description\":\"Timeout in seconds (default: 60)\"}},\"required\":[\"command\"]}",
        )
    }

    /// The registry entry for this tool.
    pub fn spec_entry(&self) -> (r: ToolSpec)
        ensures
            r@.name == "shell"@,
            r@.description == "Execute a shell command and return the output"@,
    {
        ToolSpec {
            name: String::from_str("shell"),
            description: String::from_str("Execute a shell command and return the output"),
            parameters: self.parameters(),
        }
    }
}

} // verus!
