use vstd::prelude::*;
use vstd::string::StringExecFns;
use crate::fields::text_is;

verus! {

/// An attribute of a start tag.
pub struct XmlAttribute {
    pub name: String,
    pub value: String,
}

/// A structural token of a markup document.
pub enum Token {
    /// The start of an element, with its attributes in document order.
    Start { name: String, attributes: Vec<XmlAttribute> },
    /// The end of the innermost open element.
    End,
    /// Character data.
    Text { text: String },
}

/// What a token holds, as mathematical values.
pub enum TokenView {
    Start { name: Seq<char>, attributes: Seq<(Seq<char>, Seq<char>)> },
    End,
    Text { text: Seq<char> },
}

impl View for XmlAttribute {
    type V = (Seq<char>, Seq<char>);

    open spec fn view(&self) -> (Seq<char>, Seq<char>) {
        (self.name@, self.value@)
    }
}

impl View for Token {
    type V = TokenView;

    open spec fn view(&self) -> TokenView {
        match self {
            Token::Start { name, attributes } => TokenView::Start {
                name: name@,
                attributes: attributes@.map_values(|a: XmlAttribute| a@),
            },
            Token::End => TokenView::End,
            Token::Text { text } => TokenView::Text { text: text@ },
        }
    }
}

/// The views of the tokens `t`.
pub open spec fn token_views(t: Seq<Token>) -> Seq<TokenView> {
    t.map_values(|x: Token| x@)
}

pub open spec fn depth_change(t: Token) -> int {
    match t {
        Token::Start { .. } => 1,
        Token::End => -1,
        Token::Text { .. } => 0,
    }
}

/// Nesting depth of token `j` inside the element that starts at `i`: 0 for
/// the element's own children.
pub open spec fn level(tokens: Seq<Token>, i: int, j: int) -> int
    decreases j - i,
{
    if j <= i + 1 {
        0
    } else {
        level(tokens, i, j - 1) + depth_change(tokens[j - 1])
    }
}

/// The first token from `j` on that closes the element starting at `i`.
pub open spec fn close_search(tokens: Seq<Token>, i: int, j: int) -> Option<int>
    decreases tokens.len() - j,
{
    if j < 0 || j >= tokens.len() {
        None
    } else if tokens[j] is End && level(tokens, i, j) == 0 {
        Some(j)
    } else {
        close_search(tokens, i, j + 1)
    }
}

/// Index of the token that ends the element starting at `i`; `None` when
/// the input ends first.
pub open spec fn element_end(tokens: Seq<Token>, i: int) -> Option<int> {
    close_search(tokens, i, i + 1)
}

pub open spec fn start_name(t: Token) -> Seq<char> {
    match t {
        Token::Start { name, .. } => name@,
        _ => Seq::empty(),
    }
}

/// Whether token `j` starts a child of the element starting at `i`.
pub open spec fn is_child(tokens: Seq<Token>, i: int, j: int) -> bool {
    tokens[j] is Start && level(tokens, i, j) == 0
}

/// The children of the element at `i` that start before `j`, in order.
pub open spec fn children_before(tokens: Seq<Token>, i: int, j: int) -> Seq<int>
    decreases j - i,
{
    if j <= i + 1 {
        Seq::empty()
    } else if is_child(tokens, i, j - 1) {
        children_before(tokens, i, j - 1).push(j - 1)
    } else {
        children_before(tokens, i, j - 1)
    }
}

/// The children named `name` of the element at `i` that start before `j`.
pub open spec fn named_before(tokens: Seq<Token>, i: int, j: int, name: Seq<char>) -> Seq<int>
    decreases j - i,
{
    if j <= i + 1 {
        Seq::empty()
    } else if is_child(tokens, i, j - 1) && start_name(tokens[j - 1]) == name {
        named_before(tokens, i, j - 1, name).push(j - 1)
    } else {
        named_before(tokens, i, j - 1, name)
    }
}

/// The last child named `name` of the element at `i` that starts before `j`.
pub open spec fn last_named(tokens: Seq<Token>, i: int, j: int, name: Seq<char>) -> Option<int> {
    let s = named_before(tokens, i, j, name);
    if s.len() == 0 {
        None
    } else {
        Some(s.last())
    }
}

/// The character data directly inside the element at `i`, before `j`.
pub open spec fn text_before(tokens: Seq<Token>, i: int, j: int) -> Seq<char>
    decreases j - i,
{
    if j <= i + 1 {
        Seq::empty()
    } else {
        match tokens[j - 1] {
            Token::Text { text } => if level(tokens, i, j - 1) == 0 {
                text_before(tokens, i, j - 1) + text@
            } else {
                text_before(tokens, i, j - 1)
            },
            _ => text_before(tokens, i, j - 1),
        }
    }
}

/// The value of the first attribute named `name`.
pub open spec fn attribute_value(attrs: Seq<XmlAttribute>, name: Seq<char>) -> Option<Seq<char>>
    decreases attrs.len(),
{
    if attrs.len() == 0 {
        None
    } else if attrs[0].name@ == name {
        Some(attrs[0].value@)
    } else {
        attribute_value(attrs.drop_first(), name)
    }
}

/// The value of attribute `name` on the start token `t`.
pub open spec fn attr_of(t: Token, name: Seq<char>) -> Option<Seq<char>> {
    match t {
        Token::Start { attributes, .. } => attribute_value(attributes@, name),
        _ => None,
    }
}

pub fn is_start(t: &Token) -> (r: bool)
    ensures
        r == t is Start,
{
    match t {
        Token::Start { .. } => true,
        _ => false,
    }
}

/// Whether `t` is a start token named `name`.
pub fn starts(t: &Token, name: &str) -> (r: bool)
    ensures
        r == (t is Start && start_name(*t) == name@),
{
    match t {
        Token::Start { name: n, .. } => text_is(n.as_str(), name),
        _ => false,
    }
}

/// Index of the token that ends the element starting at `i`, or `None`
/// when the input ends first.
pub fn find_end(tokens: &Vec<Token>, i: usize) -> (r: Option<usize>)
    requires
        i < tokens@.len(),
    ensures
        r is None <==> element_end(tokens@, i as int) is None,
        r matches Some(e) ==> element_end(tokens@, i as int) == Some(e as int) && i < e
            < tokens@.len(),
{
    let n = tokens.len();
    let mut j: usize = i + 1;
    let mut d: usize = 0;
    assert(tokens@.skip(0) =~= tokens@);
    while j < n
        invariant
            i < j <= n == tokens@.len(),
            d <= j - (i + 1),
            d == level(tokens@, i as int, j as int),
            close_search(tokens@, i as int, j as int) == element_end(tokens@, i as int),
        decreases n - j,
    {
        match &tokens[j] {
            Token::Start { .. } => {
                d = d + 1;
            },
            Token::End => {
                if d == 0 {
                    return Some(j);
                }
                d = d - 1;
            },
            Token::Text { .. } => {},
        }
        j = j + 1;
    }
    None
}


pub proof fn lemma_close_search(tokens: Seq<Token>, i: int, j: int, e: int)
    requires
        0 <= j,
        close_search(tokens, i, j) == Some(e),
    ensures
        j <= e < tokens.len(),
        tokens[e] is End && level(tokens, i, e) == 0,
        forall|k: int| j <= k < e ==> !(#[trigger] tokens[k] is End && level(tokens, i, k) == 0),
    decreases tokens.len() - j,
{
    if !(tokens[j] is End && level(tokens, i, j) == 0) {
        lemma_close_search(tokens, i, j + 1, e);
    }
}

/// Whether `v` holds the indices `s`, in order.
pub open spec fn holds_indices(v: Seq<usize>, s: Seq<int>) -> bool {
    v.len() == s.len() && forall|k: int| 0 <= k < s.len() ==> v[k] as int == #[trigger] s[k]
}

/// The indices of the children of the element from `i` to its end `e`,
/// named `name` when `name` is given, all of them when not.
pub fn children_of(tokens: &Vec<Token>, i: usize, e: usize, name: Option<&str>) -> (r: Vec<usize>)
    requires
        element_end(tokens@, i as int) == Some(e as int),
    ensures
        match name {
            Some(nm) => holds_indices(r@, named_before(tokens@, i as int, e as int, nm@)),
            None => holds_indices(r@, children_before(tokens@, i as int, e as int)),
        },
{
    proof {
        lemma_close_search(tokens@, i as int, i + 1, e as int);
    }
    let mut out: Vec<usize> = Vec::new();
    let mut j: usize = i + 1;
    let mut d: usize = 0;
    while j < e
        invariant
            i < j <= e < tokens@.len(),
            d <= j - (i + 1),
            d == level(tokens@, i as int, j as int),
            forall|k: int| i + 1 <= k < e ==> !(#[trigger] tokens@[k] is End && level(tokens@, i as int, k) == 0),
            match name {
                Some(nm) => holds_indices(out@, named_before(tokens@, i as int, j as int, nm@)),
                None => holds_indices(out@, children_before(tokens@, i as int, j as int)),
            },
        decreases e - j,
    {
        let ghost before = out@;
        let t = &tokens[j];
        if d == 0 && is_start(t) {
            let keep = match name {
                Some(nm) => starts(t, nm),
                None => true,
            };
            if keep {
                out.push(j);
            }
        }
        match t {
            Token::Start { .. } => {
                d = d + 1;
            },
            Token::End => {
                assert(!(tokens@[j as int] is End && level(tokens@, i as int, j as int) == 0));
                d = d - 1;
            },
            Token::Text { .. } => {},
        }
        j = j + 1;
    }
    out
}

/// The last child named `name` of the element from `i` to its end `e`.
pub fn last_child(tokens: &Vec<Token>, i: usize, e: usize, name: &str) -> (r: Option<usize>)
    requires
        element_end(tokens@, i as int) == Some(e as int),
    ensures
        r is None <==> last_named(tokens@, i as int, e as int, name@) is None,
        r matches Some(c) ==> last_named(tokens@, i as int, e as int, name@) == Some(c as int),
{
    let v = children_of(tokens, i, e, Some(name));
    if v.len() == 0 {
        None
    } else {
        Some(v[v.len() - 1])
    }
}

/// The character data directly inside the element from `i` to its end `e`.
pub fn element_text(tokens: &Vec<Token>, i: usize, e: usize) -> (r: String)
    requires
        element_end(tokens@, i as int) == Some(e as int),
    ensures
        r@ == text_before(tokens@, i as int, e as int),
{
    proof {
        lemma_close_search(tokens@, i as int, i + 1, e as int);
    }
    let mut out = String::new();
    let mut j: usize = i + 1;
    let mut d: usize = 0;
    while j < e
        invariant
            i < j <= e < tokens@.len(),
            d <= j - (i + 1),
            d == level(tokens@, i as int, j as int),
            forall|k: int| i + 1 <= k < e ==> !(#[trigger] tokens@[k] is End && level(tokens@, i as int, k) == 0),
            out@ == text_before(tokens@, i as int, j as int),
        decreases e - j,
    {
        match &tokens[j] {
            Token::Start { .. } => {
                d = d + 1;
            },
            Token::End => {
                assert(!(tokens@[j as int] is End && level(tokens@, i as int, j as int) == 0));
                d = d - 1;
            },
            Token::Text { text } => {
                if d == 0 {
                    out.append(text.as_str());
                }
            },
        }
        j = j + 1;
    }
    out
}

/// The value of attribute `name` of the start token `t`.
pub fn attribute(t: &Token, name: &str) -> (r: Option<String>)
    ensures
        r is None <==> attr_of(*t, name@) is None,
        r matches Some(v) ==> attr_of(*t, name@) == Some(v@),
{
    match t {
        Token::Start { attributes, .. } => {
            let n = attributes.len();
            let mut k: usize = 0;
            assert(attributes@.skip(0) =~= attributes@);
            while k < n
                invariant
                    k <= n == attributes@.len(),
                    attr_of(*t, name@) == attribute_value(attributes@, name@),
                    attribute_value(attributes@, name@) == attribute_value(attributes@.skip(k as int), name@),
                decreases n - k,
            {
                assert(attributes@.skip(k as int)[0] == attributes@[k as int]);
                if text_is(attributes[k].name.as_str(), name) {
                    let v = attributes[k].value.clone();
                    assert(v@ == attributes@[k as int].value@);
                    return Some(v);
                }
                assert(attributes@.skip(k as int).drop_first() =~= attributes@.skip(k + 1));
                k = k + 1;
            }
            None
        },
        _ => None,
    }
}


/// Levels seen from an inner start `j` are those seen from `i`, shifted.
pub proof fn lemma_level_shift(tokens: Seq<Token>, i: int, j: int, k: int)
    requires
        i < j < k,
        tokens[j] is Start,
    ensures
        level(tokens, j, k) == level(tokens, i, k) - level(tokens, i, j) - 1,
    decreases k - j,
{
    if k > j + 1 {
        lemma_level_shift(tokens, i, j, k - 1);
    }
}

/// `close_search` finds a closing token when one lies ahead.
pub proof fn lemma_close_search_finds(tokens: Seq<Token>, j: int, m: int, k: int)
    requires
        0 <= m <= k < tokens.len(),
        tokens[k] is End && level(tokens, j, k) == 0,
    ensures
        close_search(tokens, j, m) matches Some(x) && m <= x <= k,
    decreases k - m,
{
    if !(tokens[m] is End && level(tokens, j, m) == 0) {
        lemma_close_search_finds(tokens, j, m + 1, k);
    }
}

/// A start inside a closed element closes before the element does.
pub proof fn lemma_inner_closes(tokens: Seq<Token>, i: int, e: int, j: int)
    requires
        0 <= i,
        element_end(tokens, i) == Some(e),
        i < j < e,
        tokens[j] is Start,
    ensures
        element_end(tokens, j) matches Some(x) && j < x < e,
{
    lemma_close_search(tokens, i, i + 1, e);
    lemma_level_nonneg(tokens, i, e, j);
    let target = level(tokens, i, j) + 1;
    if !exists|q: int| j < q < e && #[trigger] tokens[q] is End && level(tokens, i, q) == target {
        assert forall|m: int| j < m <= e implies level(tokens, i, m) >= target by {
            lemma_all_above(tokens, i, j, e, target, m);
        }
        assert(level(tokens, i, e) >= target);
        assert(false);
    } else {
        let q = choose|q: int| j < q < e && #[trigger] tokens[q] is End && level(tokens, i, q) == target;
        lemma_level_shift(tokens, i, j, q);
        lemma_close_search_finds(tokens, j, j + 1, q);
    }
}

proof fn lemma_all_above(tokens: Seq<Token>, i: int, j: int, e: int, target: int, m: int)
    requires
        i < j < m <= e < tokens.len(),
        tokens[j] is Start,
        target == level(tokens, i, j) + 1,
        !exists|q: int| j < q < e && #[trigger] tokens[q] is End && level(tokens, i, q) == target,
    ensures
        level(tokens, i, m) >= target,
    decreases m - j,
{
    if m > j + 1 {
        lemma_all_above(tokens, i, j, e, target, m - 1);
        if tokens[m - 1] is End {
            assert(level(tokens, i, m - 1) != target);
        }
    }
}

/// Inside a closed element, no token lies below its children's level.
pub proof fn lemma_level_nonneg(tokens: Seq<Token>, i: int, e: int, j: int)
    requires
        0 <= i,
        element_end(tokens, i) == Some(e),
        i < j <= e,
    ensures
        level(tokens, i, j) >= 0,
    decreases j - i,
{
    lemma_close_search(tokens, i, i + 1, e);
    if j > i + 1 {
        lemma_level_nonneg(tokens, i, e, j - 1);
        if tokens[j - 1] is End {
            assert(level(tokens, i, j - 1) != 0);
        }
    }
}


/// Each child listed by `named_before` is a start token at the element's
/// own level, before `j`.
pub proof fn lemma_named_before(tokens: Seq<Token>, i: int, j: int, name: Seq<char>, k: int)
    requires
        0 <= k < named_before(tokens, i, j, name).len(),
    ensures
        ({
            let c = named_before(tokens, i, j, name)[k];
            i < c < j && is_child(tokens, i, c) && start_name(tokens[c]) == name
        }),
    decreases j - i,
{
    if j > i + 1 {
        let p = named_before(tokens, i, j - 1, name);
        if k < p.len() {
            lemma_named_before(tokens, i, j - 1, name, k);
            if is_child(tokens, i, j - 1) && start_name(tokens[j - 1]) == name {
                assert(named_before(tokens, i, j, name)[k] == p[k]);
            }
        }
    }
}

/// Each child listed by `children_before` is a start token at the
/// element's own level, before `j`.
pub proof fn lemma_children_before(tokens: Seq<Token>, i: int, j: int, k: int)
    requires
        0 <= k < children_before(tokens, i, j).len(),
    ensures
        ({
            let c = children_before(tokens, i, j)[k];
            i < c < j && is_child(tokens, i, c)
        }),
    decreases j - i,
{
    if j > i + 1 {
        let p = children_before(tokens, i, j - 1);
        if k < p.len() {
            lemma_children_before(tokens, i, j - 1, k);
            if is_child(tokens, i, j - 1) {
                assert(children_before(tokens, i, j)[k] == p[k]);
            }
        }
    }
}

} // verus!
