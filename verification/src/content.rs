//! Template contents: literal text interleaved with `<N>` placeholders.
//!
//! Parsing scans the template once, left to right. A `<` opens a
//! placeholder; digits accumulate inside it; `>` closes it and emits a
//! variable segment. An empty `<>`, any other character inside a
//! placeholder, or an index too large to use, all fall back to literal
//! text: parsing never fails. Rendering substitutes each variable with the
//! positional argument of its index, or prints the placeholder itself when
//! the argument is missing.

use vstd::prelude::*;

use crate::chars::{all_ascii_digits, digits_of, digits_val, is_ascii_digit, is_ascii_digit_char,
    parse_usize};
use crate::text::{chars_string, push_char, str_chars, usize_string};

verus! {

/// The mathematical value of a segment: literal text or a variable index.
pub enum ItemView {
    Value(Seq<char>),
    Variable(nat),
}

/// A content segment: a fixed string value or a variable placeholder.
#[derive(Debug)]
pub enum ContentItem {
    Value(String),
    Variable(usize),
}

impl View for ContentItem {
    type V = ItemView;

    open spec fn view(&self) -> ItemView {
        match self {
            ContentItem::Value(s) => ItemView::Value(s@),
            ContentItem::Variable(v) => ItemView::Variable(*v as nat),
        }
    }
}

impl PartialEq for ContentItem {
    fn eq(&self, other: &Self) -> (r: bool) {
        match (self, other) {
            (ContentItem::Value(a), ContentItem::Value(b)) => *a == *b,
            (ContentItem::Variable(a), ContentItem::Variable(b)) => *a == *b,
            _ => false,
        }
    }
}

impl vstd::std_specs::cmp::PartialEqSpecImpl for ContentItem {
    open spec fn obeys_eq_spec() -> bool {
        true
    }

    open spec fn eq_spec(&self, other: &Self) -> bool {
        self@ == other@
    }
}

/// The scanner's state: segments emitted so far, the pending literal text,
/// and — inside a placeholder — the digits read since the `<`.
pub struct ScanState {
    pub items: Seq<ItemView>,
    pub lit: Seq<char>,
    pub dig: Seq<char>,
    pub in_ph: bool,
}

/// The state the scan starts from: nothing emitted, nothing pending.
pub open spec fn scan_init() -> ScanState {
    ScanState { items: Seq::empty(), lit: Seq::empty(), dig: Seq::empty(), in_ph: false }
}

/// One scanner step on character `c`, as described in the module text.
pub open spec fn scan_step(st: ScanState, c: char) -> ScanState {
    if st.in_ph {
        if is_ascii_digit_char(c) {
            ScanState { items: st.items, lit: st.lit, dig: st.dig.push(c), in_ph: true }
        } else if c == '>' {
            if st.dig.len() == 0 {
                ScanState {
                    items: st.items,
                    lit: st.lit + seq!['<', '>'],
                    dig: Seq::empty(),
                    in_ph: false,
                }
            } else if digits_val(st.dig) <= usize::MAX {
                ScanState {
                    items: st.items.push(ItemView::Value(st.lit)).push(
                        ItemView::Variable(digits_val(st.dig)),
                    ),
                    lit: Seq::empty(),
                    dig: Seq::empty(),
                    in_ph: false,
                }
            } else {
                ScanState {
                    items: st.items,
                    lit: st.lit + seq!['<'] + st.dig + seq!['>'],
                    dig: Seq::empty(),
                    in_ph: false,
                }
            }
        } else {
            ScanState {
                items: st.items,
                lit: st.lit + seq!['<'] + st.dig + seq![c],
                dig: Seq::empty(),
                in_ph: false,
            }
        }
    } else {
        if c == '<' {
            ScanState { items: st.items, lit: st.lit, dig: st.dig, in_ph: true }
        } else {
            ScanState { items: st.items, lit: st.lit.push(c), dig: st.dig, in_ph: false }
        }
    }
}

/// The scanner's state after reading all of `s`.
pub open spec fn scan(s: Seq<char>) -> ScanState
    decreases s.len(),
{
    if s.len() == 0 {
        scan_init()
    } else {
        scan_step(scan(s.drop_last()), s.last())
    }
}

/// What parsing a template yields: the emitted segments, closed by the
/// pending literal text as a final segment.
pub open spec fn parse_content(s: Seq<char>) -> Seq<ItemView> {
    scan(s).items.push(ItemView::Value(scan(s).lit))
}

/// The scan keeps only digits in its digit buffer, and clears it whenever
/// it stands outside a placeholder.
pub proof fn lemma_scan_invariants(s: Seq<char>)
    ensures
        all_ascii_digits(scan(s).dig),
        !scan(s).in_ph ==> scan(s).dig == Seq::<char>::empty(),
    decreases s.len(),
{
    if s.len() > 0 {
        lemma_scan_invariants(s.drop_last());
    }
}

/// Rendering one segment against positional arguments: literal text stands
/// as it is; a variable becomes its argument, or the placeholder text
/// `<N>` when argument `N` is missing.
pub open spec fn render_item(it: ItemView, args: Seq<Seq<char>>) -> Seq<char> {
    match it {
        ItemView::Value(s) => s,
        ItemView::Variable(v) => if v < args.len() {
            args[v as int]
        } else {
            seq!['<'] + digits_of(v) + seq!['>']
        },
    }
}

/// Rendering a list of segments concatenates their renderings in order.
pub open spec fn render_items(items: Seq<ItemView>, args: Seq<Seq<char>>) -> Seq<char>
    decreases items.len(),
{
    if items.len() == 0 {
        Seq::empty()
    } else {
        render_items(items.drop_last(), args) + render_item(items.last(), args)
    }
}

/// What a whole template renders to against the given arguments.
pub open spec fn rendered(template: Seq<char>, args: Seq<Seq<char>>) -> Seq<char> {
    render_items(parse_content(template), args)
}

impl ContentItem {
    /// Render this segment against the given arguments.
    pub fn generate_content(&self, args: &Vec<String>) -> (r: String)
        ensures
            r@ == render_item(self@, args.deep_view()),
    {
        match self {
            ContentItem::Value(v) => v.clone(),
            ContentItem::Variable(v) => {
                if *v < args.len() {
                    proof {
                        assert(args.deep_view()[*v as int] == args@[*v as int]@);
                    }
                    args[*v].clone()
                } else {
                    let mut out = String::new();
                    push_char(&mut out, '<');
                    let ds = usize_string(*v);
                    out.append(ds.as_str());
                    push_char(&mut out, '>');
                    proof {
                        assert(Seq::<char>::empty().push('<') + digits_of(*v as nat) =~= seq!['<']
                            + digits_of(*v as nat));
                        assert((seq!['<'] + digits_of(*v as nat)).push('>') =~= seq!['<']
                            + digits_of(*v as nat) + seq!['>']);
                    }
                    out
                }
            },
        }
    }

    /// The text form of this segment alone: its value, or the placeholder
    /// text for a variable — the same as rendering with no arguments.
    pub fn to_text(&self) -> (r: String)
        ensures
            r@ == render_item(self@, Seq::empty()),
    {
        let empty: Vec<String> = Vec::new();
        self.generate_content(&empty)
    }
}

/// An ordered sequence of content segments parsed from a template.
#[derive(Debug)]
pub struct Content(pub Vec<ContentItem>);

impl View for Content {
    type V = Seq<ItemView>;

    open spec fn view(&self) -> Seq<ItemView> {
        self.0@.map_values(|it: ContentItem| it@)
    }
}

impl Content {
    /// Parse a template string into its segments; parsing never fails.
    pub fn from(value: &str) -> (r: Content)
        ensures
            r@ == parse_content(value@),
    {
        let v = str_chars(value);
        let n = v.len();
        let mut items: Vec<ContentItem> = Vec::new();
        let mut lit = String::new();
        let mut dig: Vec<char> = Vec::new();
        let mut in_ph = false;
        let mut i: usize = 0;
        while i < n
            invariant
                v@ == value@,
                n == v@.len(),
                0 <= i <= n,
                items@.map_values(|it: ContentItem| it@) == scan(v@.take(i as int)).items,
                lit@ == scan(v@.take(i as int)).lit,
                dig@ == scan(v@.take(i as int)).dig,
                in_ph == scan(v@.take(i as int)).in_ph,
            decreases n - i,
        {
            let ghost pre = scan(v@.take(i as int));
            proof {
                assert(v@.take(i as int + 1).drop_last() =~= v@.take(i as int));
                assert(v@.take(i as int + 1).last() == v@[i as int]);
                lemma_scan_invariants(v@.take(i as int));
            }
            let c = v[i];
            if in_ph {
                if is_ascii_digit(c) {
                    dig.push(c);
                } else if c == '>' {
                    if dig.len() == 0 {
                        push_char(&mut lit, '<');
                        push_char(&mut lit, '>');
                        proof {
                            assert(pre.lit.push('<').push('>') =~= pre.lit + seq!['<', '>']);
                        }
                        in_ph = false;
                    } else {
                        match parse_usize(&dig) {
                            Some(idx) => {
                                items.push(ContentItem::Value(lit));
                                items.push(ContentItem::Variable(idx));
                                proof {
                                    assert(items@.map_values(|it: ContentItem| it@) =~= pre.items
                                        .push(ItemView::Value(pre.lit)).push(
                                        ItemView::Variable(digits_val(pre.dig)),
                                    ));
                                }
                                lit = String::new();
                                dig = Vec::new();
                                in_ph = false;
                            },
                            None => {
                                push_char(&mut lit, '<');
                                let ds = chars_string(&dig);
                                lit.append(ds.as_str());
                                push_char(&mut lit, '>');
                                proof {
                                    assert(pre.lit.push('<') + pre.dig =~= pre.lit + seq!['<']
                                        + pre.dig);
                                    assert((pre.lit + seq!['<'] + pre.dig).push('>') =~= pre.lit
                                        + seq!['<'] + pre.dig + seq!['>']);
                                }
                                dig = Vec::new();
                                in_ph = false;
                            },
                        }
                    }
                } else {
                    push_char(&mut lit, '<');
                    let ds = chars_string(&dig);
                    lit.append(ds.as_str());
                    push_char(&mut lit, c);
                    proof {
                        assert(pre.lit.push('<') + pre.dig =~= pre.lit + seq!['<'] + pre.dig);
                        assert((pre.lit + seq!['<'] + pre.dig).push(c) =~= pre.lit + seq!['<']
                            + pre.dig + seq![c]);
                    }
                    dig = Vec::new();
                    in_ph = false;
                }
            } else {
                if c == '<' {
                    in_ph = true;
                } else {
                    push_char(&mut lit, c);
                }
            }
            i = i + 1;
        }
        proof {
            assert(v@.take(n as int) =~= v@);
        }
        items.push(ContentItem::Value(lit));
        proof {
            assert(items@.map_values(|it: ContentItem| it@) =~= parse_content(value@));
        }
        Content(items)
    }

    /// Render the whole content against the given arguments, concatenating
    /// every segment's rendering in order.
    pub fn generate_content(&self, args: &Vec<String>) -> (r: String)
        ensures
            r@ == render_items(self@, args.deep_view()),
    {
        let mut out = String::new();
        let mut i: usize = 0;
        while i < self.0.len()
            invariant
                0 <= i <= self.0@.len(),
                out@ == render_items(self@.take(i as int), args.deep_view()),
            decreases self.0@.len() - i,
        {
            let piece = self.0[i].generate_content(args);
            out.append(piece.as_str());
            proof {
                assert(self@.take(i as int + 1).drop_last() =~= self@.take(i as int));
                assert(self@.take(i as int + 1).last() == self@[i as int]);
                assert(self@[i as int] == self.0@[i as int]@);
            }
            i = i + 1;
        }
        proof {
            assert(self@.take(self.0@.len() as int) =~= self@);
        }
        out
    }

    /// The text form of the content: every segment's own text in order,
    /// variables as placeholder text — the same as rendering with no
    /// arguments.
    pub fn to_text(&self) -> (r: String)
        ensures
            r@ == render_items(self@, Seq::empty()),
    {
        let empty: Vec<String> = Vec::new();
        proof {
            assert(empty.deep_view() =~= Seq::<Seq<char>>::empty());
        }
        self.generate_content(&empty)
    }
}

/// Concatenation of a list of segments that are all literal text.
pub open spec fn concat_values(items: Seq<ItemView>) -> Seq<char>
    decreases items.len(),
{
    if items.len() == 0 {
        Seq::empty()
    } else {
        concat_values(items.drop_last()) + match items.last() {
            ItemView::Value(s) => s,
            ItemView::Variable(_) => Seq::empty(),
        }
    }
}

/// Rendering does not look at the arguments when every segment is literal.
pub proof fn lemma_render_all_values(items: Seq<ItemView>, args: Seq<Seq<char>>)
    requires
        forall|i: int| 0 <= i < items.len() ==> items[i] is Value,
    ensures
        render_items(items, args) == concat_values(items),
    decreases items.len(),
{
    if items.len() > 0 {
        assert(items.last() == items[items.len() - 1]);
        assert forall|i: int| 0 <= i < items.drop_last().len() implies items.drop_last()[i]
            is Value by {
            assert(items.drop_last()[i] == items[i]);
        }
        lemma_render_all_values(items.drop_last(), args);
    }
}

/// A scan that emitted only literal segments has read exactly the text it
/// can reconstruct: the emitted segments, the pending literal, and — inside
/// a placeholder — the `<` and the digits after it.
pub proof fn lemma_scan_reconstruct(s: Seq<char>)
    requires
        forall|i: int| 0 <= i < scan(s).items.len() ==> scan(s).items[i] is Value,
    ensures
        concat_values(scan(s).items) + scan(s).lit + (if scan(s).in_ph {
            seq!['<'] + scan(s).dig
        } else {
            Seq::<char>::empty()
        }) == s,
    decreases s.len(),
{
    let st = scan(s);
    if s.len() == 0 {
        assert(concat_values(st.items) + st.lit + Seq::<char>::empty() =~= Seq::<char>::empty());
    } else {
        let pre = scan(s.drop_last());
        let c = s.last();
        assert forall|i: int| 0 <= i < pre.items.len() implies pre.items[i] is Value by {
            assert(st.items[i] == pre.items[i]) by {
                if pre.in_ph && !is_ascii_digit_char(c) && c == '>' && pre.dig.len() > 0
                    && digits_val(pre.dig) <= usize::MAX {
                    assert(st.items[i] == pre.items.push(ItemView::Value(pre.lit))[i]);
                } else {
                }
            }
        }
        lemma_scan_reconstruct(s.drop_last());
        lemma_scan_invariants(s.drop_last());
        let before = concat_values(pre.items) + pre.lit + (if pre.in_ph {
            seq!['<'] + pre.dig
        } else {
            Seq::<char>::empty()
        });
        if pre.in_ph {
            if is_ascii_digit_char(c) {
                assert(concat_values(st.items) + st.lit + (seq!['<'] + st.dig) =~= before
                    + seq![c]);
            } else if c == '>' {
                if pre.dig.len() == 0 {
                    assert(concat_values(st.items) + st.lit + Seq::<char>::empty() =~= before
                        + seq![c]);
                } else if digits_val(pre.dig) <= usize::MAX {
                    assert(st.items.last() is Variable);
                    assert(false);
                } else {
                    assert(concat_values(st.items) + st.lit + Seq::<char>::empty() =~= before
                        + seq![c]);
                }
            } else {
                assert(concat_values(st.items) + st.lit + Seq::<char>::empty() =~= before
                    + seq![c]);
            }
        } else {
            if c == '<' {
                assert(concat_values(st.items) + st.lit + (seq!['<'] + st.dig) =~= before
                    + seq![c]);
            } else {
                assert(concat_values(st.items) + st.lit + Seq::<char>::empty() =~= before
                    + seq![c]);
            }
        }
        assert(s.drop_last() + seq![c] =~= s);
    }
}

/// Law: a template in which no variable placeholder was recognised renders
/// back to exactly itself, whatever the arguments. The scan must also end
/// outside a placeholder: text after an unclosed `<` is dropped.
pub proof fn lemma_render_parse_identity(s: Seq<char>, args: Seq<Seq<char>>)
    requires
        !scan(s).in_ph,
        forall|i: int| 0 <= i < parse_content(s).len() ==> parse_content(s)[i] is Value,
    ensures
        rendered(s, args) == s,
{
    let items = parse_content(s);
    assert forall|i: int| 0 <= i < scan(s).items.len() implies scan(s).items[i] is Value by {
        assert(items[i] == scan(s).items[i]);
    }
    lemma_scan_reconstruct(s);
    lemma_render_all_values(items, args);
    assert(items.drop_last() =~= scan(s).items);
    assert(items.last() == ItemView::Value(scan(s).lit));
    assert(concat_values(items) =~= concat_values(scan(s).items) + scan(s).lit);
    assert(concat_values(scan(s).items) + scan(s).lit + Seq::<char>::empty()
        =~= concat_values(scan(s).items) + scan(s).lit);
}

} // verus!
