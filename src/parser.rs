use crate::dom::{
    class_view, has_class, lemma_with_class_no_duplicates, with_class, Attribute, DomError,
    HtmlClass, HtmlDom, NodeData, NodeKind,
};
use crate::tokenizer::{attr_pairs, is_space, is_space_exec, Token, Tokenizer};
use crate::util::{Either, chars_eq};
use vstd::prelude::*;

verus! {

/// Failures that leave no tree to return. Malformed markup is never one of them.
#[derive(PartialEq, Eq, Structural, Debug, Clone, Copy)]
pub enum ParseError {
    NotImplemented,
}

/// The characters of `s`, in order.
pub fn decode_chars(s: &str) -> (r: Vec<char>)
    ensures
        r@ == s@,
{
    let mut out: Vec<char> = Vec::new();
    for c in it: s.chars()
        invariant
            out@ == it.seq().subrange(0, it.index() as int),
    {
        out.push(c);
    }
    out
}

/// `script`
pub open spec fn script_name() -> Seq<char> {
    seq!['s', 'c', 'r', 'i', 'p', 't']
}

/// Elements whose content is read as plain characters, not as markup.
pub open spec fn is_raw_text_name(n: Seq<char>) -> bool {
    n == script_name() || n == seq!['s', 't', 'y', 'l', 'e'] || n == seq![
        't',
        'e',
        'x',
        't',
        'a',
        'r',
        'e',
        'a',
    ] || n == seq!['t', 'i', 't', 'l', 'e']
}

fn word_of(w: &[char]) -> (r: Vec<char>)
    ensures
        r@ == w@,
{
    let mut out: Vec<char> = Vec::new();
    let mut i: usize = 0;
    while i < w.len()
        invariant
            i <= w@.len(),
            out@ == w@.subrange(0, i as int),
        decreases w@.len() - i,
    {
        out.push(w[i]);
        i += 1;
        assert(out@ =~= w@.subrange(0, i as int));
    }
    out
}

fn is_script(n: &Vec<char>) -> (r: bool)
    ensures
        r == (n@ == script_name()),
{
    let w = word_of(&['s', 'c', 'r', 'i', 'p', 't']);
    assert(w@ =~= script_name());
    chars_eq(n, &w)
}

fn is_raw_text(n: &Vec<char>) -> (r: bool)
    ensures
        r == is_raw_text_name(n@),
{
    let a = word_of(&['s', 'c', 'r', 'i', 'p', 't']);
    let b = word_of(&['s', 't', 'y', 'l', 'e']);
    let c = word_of(&['t', 'e', 'x', 't', 'a', 'r', 'e', 'a']);
    let d = word_of(&['t', 'i', 't', 'l', 'e']);
    assert(a@ =~= script_name());
    assert(b@ =~= seq!['s', 't', 'y', 'l', 'e']);
    assert(c@ =~= seq!['t', 'e', 'x', 't', 'a', 'r', 'e', 'a']);
    assert(d@ =~= seq!['t', 'i', 't', 'l', 'e']);
    chars_eq(n, &a) || chars_eq(n, &b) || chars_eq(n, &c) || chars_eq(n, &d)
}

/// The words of `v` from `i` on, where `cur` is the word being read.
pub open spec fn words_from(v: Seq<char>, i: int, cur: Seq<char>) -> Seq<Seq<char>>
    decreases v.len() - i,
{
    if i >= v.len() {
        if cur.len() > 0 {
            seq![cur]
        } else {
            Seq::empty()
        }
    } else if is_space(v[i]) {
        (if cur.len() > 0 {
            seq![cur]
        } else {
            Seq::empty()
        }) + words_from(v, i + 1, Seq::empty())
    } else {
        words_from(v, i + 1, cur.push(v[i]))
    }
}

/// The non-empty runs of non-space characters of `v`, in order.
pub open spec fn class_words(v: Seq<char>) -> Seq<Seq<char>> {
    words_from(v, 0, Seq::empty())
}

/// The ordered set `c` with the words `ws` added one after the other.
pub open spec fn with_classes(c: Seq<Seq<char>>, ws: Seq<Seq<char>>) -> Seq<Seq<char>>
    decreases ws.len(),
{
    if ws.len() == 0 {
        c
    } else {
        with_class(with_classes(c, ws.drop_last()), ws.last())
    }
}

/// Adding words to an ordered set keeps it free of repeats.
pub proof fn lemma_with_classes_no_duplicates(c: Seq<Seq<char>>, ws: Seq<Seq<char>>)
    requires
        c.no_duplicates(),
    ensures
        with_classes(c, ws).no_duplicates(),
    decreases ws.len(),
{
    if ws.len() > 0 {
        lemma_with_classes_no_duplicates(c, ws.drop_last());
        lemma_with_class_no_duplicates(with_classes(c, ws.drop_last()), ws.last());
    }
}

/// The class tokens of all `class` attributes never repeat.
pub proof fn lemma_classes_of_no_duplicates(attrs: Seq<Attribute>)
    ensures
        classes_of(attrs).no_duplicates(),
    decreases attrs.len(),
{
    if attrs.len() > 0 {
        lemma_classes_of_no_duplicates(attrs.drop_last());
        lemma_with_classes_no_duplicates(
            classes_of(attrs.drop_last()),
            class_words(attrs.last().value@),
        );
    }
}

/// Adds the words of `v` to the ordered set of class tokens `out`: each word
/// not yet there goes at the end, in order.
fn split_classes(v: &Vec<char>, out: &mut Vec<HtmlClass>)
    ensures
        class_view(final(out)@) == with_classes(class_view(old(out)@), class_words(v@)),
{
    let mut cur: Vec<char> = Vec::new();
    let mut i: usize = 0;
    let ghost start = class_view(old(out)@);
    let ghost mut done: Seq<Seq<char>> = Seq::empty();
    while i < v.len()
        invariant
            i <= v@.len(),
            done + words_from(v@, i as int, cur@) == class_words(v@),
            class_view(out@) == with_classes(start, done),
        decreases v@.len() - i,
    {
        let c = v[i];
        if is_space_exec(c) {
            if cur.len() > 0 {
                let ghost cur0 = cur@;
                proof {
                    assert(done.push(cur0) + words_from(v@, i + 1, Seq::empty()) =~= done + (seq![
                        cur0,
                    ] + words_from(v@, i + 1, Seq::empty())));
                    assert(done.push(cur0).drop_last() =~= done);
                }
                self_add(out, cur);
                cur = Vec::new();
                proof {
                    done = done.push(cur0);
                }
            } else {
                assert(cur@ =~= Seq::<char>::empty());
                assert(words_from(v@, i as int, cur@) =~= words_from(v@, i + 1, Seq::empty()));
            }
        } else {
            cur.push(c);
        }
        i += 1;
    }
    if cur.len() > 0 {
        let ghost cur0 = cur@;
        proof {
            assert(done.push(cur0) =~= done + words_from(v@, i as int, cur0));
            assert(done.push(cur0).drop_last() =~= done);
        }
        self_add(out, cur);
    } else {
        assert(done =~= done + words_from(v@, i as int, cur@));
    }
}

/// Adds `w` to the ordered set of class tokens `out`.
fn self_add(out: &mut Vec<HtmlClass>, w: Vec<char>)
    ensures
        class_view(final(out)@) == with_class(class_view(old(out)@), w@),
{
    if !has_class(out, &w) {
        let ghost before = out@;
        out.push(HtmlClass(w));
        assert(class_view(out@) =~= class_view(before).push(w@));
    }
}

/// The class tokens of all `class` attributes, in order, each kept once at its
/// first occurrence.
pub open spec fn classes_of(attrs: Seq<Attribute>) -> Seq<Seq<char>>
    decreases attrs.len(),
{
    if attrs.len() == 0 {
        Seq::empty()
    } else {
        if attrs.last().name@ == seq!['c', 'l', 'a', 's', 's'] {
            with_classes(classes_of(attrs.drop_last()), class_words(attrs.last().value@))
        } else {
            classes_of(attrs.drop_last())
        }
    }
}

/// The value of the last attribute named `id`; empty when there is none.
pub open spec fn id_value(attrs: Seq<Attribute>) -> Seq<char>
    decreases attrs.len(),
{
    if attrs.len() == 0 {
        Seq::empty()
    } else if attrs.last().name@ == seq!['i', 'd'] {
        attrs.last().value@
    } else {
        id_value(attrs.drop_last())
    }
}

/// The (name, value) pairs of the attributes other than `id` and `class`, in
/// order.
pub open spec fn other_pairs(attrs: Seq<Attribute>) -> Seq<(Seq<char>, Seq<char>)>
    decreases attrs.len(),
{
    if attrs.len() == 0 {
        Seq::empty()
    } else if attrs.last().name@ == seq!['i', 'd'] || attrs.last().name@ == seq![
        'c',
        'l',
        'a',
        's',
        's',
    ] {
        other_pairs(attrs.drop_last())
    } else {
        other_pairs(attrs.drop_last()).push((attrs.last().name@, attrs.last().value@))
    }
}

/// The element that a start tag opens: `class` values become class tokens, the
/// last `id` the element id, and the other attributes are kept in order.
fn element_data(name: Vec<char>, attributes: Vec<Attribute>) -> (r: NodeData)
    ensures
        r.kind == NodeKind::Element,
        r.name@ == name@,
        r.data@.len() == 0,
        r.id@ == id_value(attributes@),
        class_view(r.classes@) == classes_of(attributes@),
        attr_pairs(r.attributes@) == other_pairs(attributes@),
        class_view(r.classes@).no_duplicates(),
{
    let class_word = word_of(&['c', 'l', 'a', 's', 's']);
    let id_word = word_of(&['i', 'd']);
    assert(id_word@ =~= seq!['i', 'd']);
    assert(class_word@ =~= seq!['c', 'l', 'a', 's', 's']);
    let mut classes: Vec<HtmlClass> = Vec::new();
    let mut id: Vec<char> = Vec::new();
    let mut others: Vec<Attribute> = Vec::new();
    let ghost all = attributes@;
    let mut rest = attributes;
    while rest.len() > 0
        invariant
            id_word@ == seq!['i', 'd'],
            attr_pairs(others@) == other_pairs(all.subrange(0, all.len() - rest@.len())),
            class_word@ == seq!['c', 'l', 'a', 's', 's'],
            class_view(classes@) == classes_of(all.subrange(0, all.len() - rest@.len())),
            rest@.len() <= all.len(),
            rest@ == all.subrange(all.len() - rest@.len(), all.len() as int),
            id@ == id_value(all.subrange(0, all.len() - rest@.len())),
        decreases rest@.len(),
    {
        let ghost done = all.len() - rest@.len();
        let a = rest.remove(0);
        proof {
            assert(all.subrange(0, done + 1).drop_last() =~= all.subrange(0, done));
            assert(all.subrange(0, done + 1).last() == a);
            assert(rest@ =~= all.subrange(all.len() - rest@.len(), all.len() as int));
        }
        if chars_eq(&a.name, &id_word) {
            id = a.value;
        } else if chars_eq(&a.name, &class_word) {
            split_classes(&a.value, &mut classes);
        } else {
            let ghost before = others@;
            others.push(a);
            assert(attr_pairs(others@) =~= attr_pairs(before).push((a.name@, a.value@)));
        }
    }
    assert(all.subrange(0, all.len() as int) =~= all);
    proof {
        lemma_classes_of_no_duplicates(all);
    }
    NodeData { kind: NodeKind::Element, name, data: Vec::new(), classes, id, attributes: others }
}

/// The insertion modes of the tree constructor.
#[derive(PartialEq, Eq, Structural, Debug, Clone, Copy)]
pub enum InsertionMode {
    /// Markup is being read into the body.
    InBody,
    /// The last opened element is a raw-text element.
    Text,
    /// The end of the input has been processed.
    AfterBody,
}

/// The tree constructor, with the tokenizer it pulls from and the tree it builds.
pub struct HtmlParser {
    tokenizer: Tokenizer,
    dom: HtmlDom,
    open: Vec<usize>,
    mode: InsertionMode,
    script_nesting_level: u8,
    parser_paused: bool,
}

impl HtmlParser {
    pub closed spec fn tokenizer(&self) -> Tokenizer {
        self.tokenizer
    }

    pub closed spec fn dom(&self) -> HtmlDom {
        self.dom
    }

    /// The open-element stack, bottom first.
    pub closed spec fn open_stack(&self) -> Seq<usize> {
        self.open@
    }

    pub closed spec fn mode(&self) -> InsertionMode {
        self.mode
    }

    pub closed spec fn level(&self) -> u8 {
        self.script_nesting_level
    }

    pub closed spec fn paused(&self) -> bool {
        self.parser_paused
    }

    /// The current insertion point.
    pub open spec fn top(&self) -> int {
        self.open_stack().last() as int
    }

    /// The parser's invariant: the tree is well formed; the stack holds the root at
    /// its bottom and live elements above it; raw-text mode of the tokenizer goes
    /// with the `Text` mode; after the end nothing is open but the root.
    pub open spec fn wf(&self) -> bool {
        &&& self.dom().wf()
        &&& self.tokenizer().wf()
        &&& self.open_stack().len() >= 1
        &&& self.open_stack()[0] == 0
        &&& forall|k: int|
            0 <= k < self.open_stack().len() ==> self.dom().live(
                #[trigger] self.open_stack()[k] as int,
            )
        &&& forall|k: int| 1 <= k < self.open_stack().len() ==> #[trigger] self.open_stack()[k] != 0
        &&& self.tokenizer().raw_end() is Some && !self.finished() ==> self.mode()
            == InsertionMode::Text
        &&& self.mode() == InsertionMode::AfterBody ==> self.open_stack().len() == 1
            && self.tokenizer().pos() == self.tokenizer().input().len()
    }

    pub open spec fn finished(&self) -> bool {
        self.mode() == InsertionMode::AfterBody
    }

    /// The stack entry `j` is the topmost open element named `name`.
    pub open spec fn top_match(&self, name: Seq<char>, j: int) -> bool {
        &&& 1 <= j < self.open_stack().len()
        &&& self.dom()@[self.open_stack()[j] as int].data.name@ == name
        &&& forall|k: int|
            j < k < self.open_stack().len() ==> self.dom()@[#[trigger] self.open_stack()[k] as int].data.name@
                != name
    }

    /// A parser at the start of `input`, with a tree that holds the root alone.
    pub fn with_input(input: Vec<char>) -> (r: HtmlParser)
        ensures
            Self::is_initial(&r, input@),
    {
        let mut open: Vec<usize> = Vec::new();
        open.push(0);
        HtmlParser {
            tokenizer: Tokenizer::new(input),
            dom: HtmlDom::new(),
            open,
            mode: InsertionMode::InBody,
            script_nesting_level: 0,
            parser_paused: false,
        }
    }

    /// A parser over no input.
    pub fn new() -> (r: HtmlParser)
        ensures
            Self::is_initial(&r, Seq::empty()),
    {
        let input: Vec<char> = Vec::new();
        assert(input@ =~= Seq::<char>::empty());
        HtmlParser::with_input(input)
    }

    /// The tree built so far.
    pub fn document(&self) -> (r: &HtmlDom)
        ensures
            *r == self.dom(),
    {
        &self.dom
    }

    pub fn is_paused(&self) -> (r: bool)
        ensures
            r == self.paused(),
    {
        self.parser_paused
    }

    pub fn is_finished(&self) -> (r: bool)
        ensures
            r == self.finished(),
    {
        self.mode == InsertionMode::AfterBody
    }

    pub fn script_nesting_level(&self) -> (r: u8)
        ensures
            r == self.level(),
    {
        self.script_nesting_level
    }

    /// Lets a paused parse go on from where it stopped; nothing else changes.
    pub fn resume(&mut self)
        requires
            old(self).wf(),
        ensures
            final(self).wf(),
            Self::resumed(old(self), final(self)),
    {
        self.parser_paused = false;
    }

    /// What a start tag named `name` with `attrs` does: a new element under the
    /// insertion point, pushed on the stack; raw-text elements switch the
    /// tokenizer; `script` pauses the parse.
    pub open spec fn opened(pre: &Self, post: &Self, name: Seq<char>, attrs: Seq<Attribute>) -> bool {
        let id = pre.dom()@.len();
        &&& HtmlDom::added(&pre.dom(), &post.dom(), pre.top(), post.dom()@[id as int].data)
        &&& post.dom()@[id as int].data.kind == NodeKind::Element
        &&& post.dom()@[id as int].data.name@ == name
        &&& post.dom()@[id as int].data.id@ == id_value(attrs)
        &&& class_view(post.dom()@[id as int].data.classes@) == classes_of(attrs)
        &&& attr_pairs(post.dom()@[id as int].data.attributes@) == other_pairs(attrs)
        &&& post.dom()@[id as int].data.data@.len() == 0
        &&& post.open_stack() == pre.open_stack().push(id as usize)
        &&& post.tokenizer().input() == pre.tokenizer().input()
        &&& post.tokenizer().pos() == pre.tokenizer().pos()
        &&& if is_raw_text_name(name) {
            post.tokenizer().raw_end() == Some(name) && post.mode() == InsertionMode::Text
        } else {
            post.tokenizer() == pre.tokenizer() && post.mode() == pre.mode()
        }
        &&& if name == script_name() {
            post.paused() && post.level() == (if pre.level() < 255 {
                (pre.level() + 1) as u8
            } else {
                pre.level()
            })
        } else {
            post.paused() == pre.paused() && post.level() == pre.level()
        }
    }

    /// What an end tag named `name` does: it closes the topmost open element of
    /// that name and all above it; without one it is ignored.
    pub open spec fn closed_by(pre: &Self, post: &Self, name: Seq<char>) -> bool {
        &&& post.dom() == pre.dom()
        &&& post.tokenizer() == pre.tokenizer()
        &&& forall|j: int|
            #[trigger] pre.top_match(name, j) ==> {
                &&& post.open_stack() == pre.open_stack().subrange(0, j)
                &&& if name == script_name() {
                    !post.paused() && post.level() == (if pre.level() > 0 {
                        (pre.level() - 1) as u8
                    } else {
                        0
                    })
                } else {
                    post.paused() == pre.paused() && post.level() == pre.level()
                }
            }
        &&& (forall|j: int| !#[trigger] pre.top_match(name, j)) ==> post.open_stack()
            == pre.open_stack() && post.paused() == pre.paused() && post.level() == pre.level()
    }

    /// The place on the stack of the topmost open element named `name`.
    fn find_open(&self, name: &Vec<char>) -> (r: Option<usize>)
        requires
            self.wf(),
        ensures
            r matches Some(j) ==> self.top_match(name@, j as int),
            r is None ==> forall|j: int| !#[trigger] self.top_match(name@, j),
    {
        let mut j = self.open.len();
        while j > 1
            invariant
                self.wf(),
                1 <= j <= self.open@.len(),
                forall|k: int|
                    j <= k < self.open@.len() ==> self.dom@[#[trigger] self.open@[k] as int].data.name@
                        != name@,
            decreases j,
        {
            let id = self.open[j - 1];
            assert(self.dom.live(self.open@[j - 1] as int));
            let hit = match self.dom.get(id) {
                Ok(node) => chars_eq(&node.data.name, name),
                Err(_) => false,
            };
            if hit {
                return Some(j - 1);
            }
            j -= 1;
        }
        proof {
            assert forall|i: int| !#[trigger] self.top_match(name@, i) by {
                if self.top_match(name@, i) {
                    assert(self.dom@[self.open@[i] as int].data.name@ == name@);
                }
            }
        }
        None
    }

    fn close_element(&mut self, name: &Vec<char>)
        requires
            old(self).wf(),
            !old(self).finished(),
        ensures
            final(self).wf(),
            Self::closed_by(old(self), final(self), name@),
            final(self).mode() == old(self).mode(),
    {
        let found = self.find_open(name);
        match found {
            Some(j) => {
                self.open.truncate(j);
                if is_script(name) {
                    if self.script_nesting_level > 0 {
                        self.script_nesting_level = self.script_nesting_level - 1;
                    }
                    self.parser_paused = false;
                }
                proof {
                    assert forall|k: int| #[trigger] old(self).top_match(name@, k) implies k == j by {
                        if k < j {
                            assert(old(self).dom@[old(self).open@[j as int] as int].data.name@ != name@);
                        } else if k > j {
                            assert(old(self).dom@[old(self).open@[k] as int].data.name@ != name@);
                        }
                    }
                }
            },
            None => {},
        }
    }

    fn insert_char(&mut self, c: char)
        requires
            old(self).wf(),
            !old(self).finished(),
            old(self).dom()@.len() < usize::MAX,
        ensures
            final(self).wf(),
            final(self).dom()@.len() <= old(self).dom()@.len() + 1,
            Self::text_added(old(self), final(self), c),
    {
        let top = self.open[self.open.len() - 1];
        assert(self.dom.live(self.open@[self.open@.len() - 1] as int));
        let mut last_text: Option<usize> = None;
        match self.dom.children(top) {
            Ok(v) => {
                if v.len() > 0 {
                    let last = v[v.len() - 1];
                    assert(self.dom.live(last as int));
                    match self.dom.get(last) {
                        Ok(node) => {
                            if node.data.kind == NodeKind::Text {
                                last_text = Some(last);
                            }
                        },
                        Err(_) => {},
                    }
                }
            },
            Err(_) => {},
        }
        let ghost pre = *self;
        match last_text {
            Some(t) => {
                let r = self.dom.append_text(t, c);
                proof {
                    assert forall|k: int| 0 <= k < self.open@.len() implies self.dom.live(
                        #[trigger] self.open@[k] as int,
                    ) by {
                        assert(pre.dom.live(self.open@[k] as int));
                        if self.open@[k] != t {
                            assert(self.dom@[self.open@[k] as int] == pre.dom@[self.open@[k] as int]);
                        }
                    }
                }
            },
            None => {
                let mut one: Vec<char> = Vec::new();
                one.push(c);
                let r = self.dom.add_child(top, NodeData::text(one));
                proof {
                    assert forall|k: int| 0 <= k < self.open@.len() implies self.dom.live(
                        #[trigger] self.open@[k] as int,
                    ) by {
                        assert(pre.dom.live(self.open@[k] as int));
                        if self.open@[k] != top {
                            assert(self.dom@[self.open@[k] as int] == pre.dom@[self.open@[k] as int]);
                        }
                    }
                }
            },
        }
    }

    /// A text or comment node's data: no name, classes, id or attributes.
    pub open spec fn bare(d: NodeData) -> bool {
        &&& d.name@.len() == 0
        &&& d.classes@.len() == 0
        &&& d.id@.len() == 0
        &&& d.attributes@.len() == 0
    }

    /// What a character does: it extends the text node that is the last child
    /// of the insertion point, or starts one there.
    pub open spec fn text_added(pre: &Self, post: &Self, c: char) -> bool {
        let t = pre.top();
        let ch = pre.dom().children_of(t);
        &&& post.open_stack() == pre.open_stack()
        &&& post.tokenizer() == pre.tokenizer()
        &&& post.mode() == pre.mode()
        &&& post.paused() == pre.paused()
        &&& post.level() == pre.level()
        &&& if ch.len() > 0 && pre.dom()@[ch.last() as int].data.kind == NodeKind::Text {
            &&& HtmlDom::only_data_changed(&pre.dom(), &post.dom(), ch.last() as int)
            &&& post.dom()@[ch.last() as int].data.data@ == pre.dom()@[ch.last() as int].data.data@.push(c)
            &&& post.dom()@[ch.last() as int].data.name == pre.dom()@[ch.last() as int].data.name
            &&& post.dom()@[ch.last() as int].data.classes == pre.dom()@[ch.last() as int].data.classes
            &&& post.dom()@[ch.last() as int].data.id == pre.dom()@[ch.last() as int].data.id
            &&& post.dom()@[ch.last() as int].data.attributes == pre.dom()@[
                ch.last() as int
            ].data.attributes
        } else {
            &&& HtmlDom::added(&pre.dom(), &post.dom(), t, post.dom()@[pre.dom()@.len() as int].data)
            &&& post.dom()@[pre.dom()@.len() as int].data.kind == NodeKind::Text
            &&& post.dom()@[pre.dom()@.len() as int].data.data@ == seq![c]
            &&& Self::bare(post.dom()@[pre.dom()@.len() as int].data)
        }
    }

    /// What applying token `t` does, from `pre` to `post`.
    pub open spec fn applies(pre: &Self, post: &Self, t: &Token) -> bool {
        &&& post.dom()@.len() <= pre.dom()@.len() + 1
        &&& *t is EndOfStream ==> post.dom() == pre.dom()
        &&& post.tokenizer().input() == pre.tokenizer().input()
        &&& post.tokenizer().pos() == pre.tokenizer().pos()
        &&& match *t {
            Token::StartTag { name, attributes, .. } => Self::opened(
                pre,
                post,
                name@,
                attributes@,
            ),
            Token::EndTag { name } => Self::closed_by(pre, post, name@)
                && post.mode() == (if pre.mode() == InsertionMode::Text
                && pre.tokenizer().raw_end() is None {
                InsertionMode::InBody
            } else {
                pre.mode()
            }),
            Token::Character { c } => Self::text_added(pre, post, c),
            Token::Comment { data } => post.open_stack() == pre.open_stack()
                && HtmlDom::added(&pre.dom(), &post.dom(), pre.top(), post.dom()@[pre.dom()@.len() as int].data)
                && post.dom()@[pre.dom()@.len() as int].data.kind == NodeKind::Comment
                && post.dom()@[pre.dom()@.len() as int].data.data@ == data@
                && Self::bare(post.dom()@[pre.dom()@.len() as int].data)
                && post.tokenizer() == pre.tokenizer() && post.mode() == pre.mode()
                && post.paused() == pre.paused() && post.level() == pre.level(),
            Token::EndOfStream => post.open_stack() == seq![0usize] && post.finished()
                && post.tokenizer() == pre.tokenizer() && post.paused() == pre.paused()
                && post.level() == pre.level(),
        }
    }

    /// The state just after `with_input(input)`.
    pub open spec fn is_initial(s: &Self, input: Seq<char>) -> bool {
        &&& s.wf()
        &&& s.tokenizer().input() == input
        &&& s.tokenizer().pos() == 0
        &&& s.tokenizer().raw_end() == None::<Seq<char>>
        &&& s.dom()@.len() == 1
        &&& s.dom().children_of(0).len() == 0
        &&& s.dom()@[0].data.name@.len() == 0
        &&& s.dom()@[0].data.id@.len() == 0
        &&& s.dom()@[0].data.classes@.len() == 0
        &&& s.open_stack() == seq![0usize]
        &&& s.mode() == InsertionMode::InBody
        &&& s.level() == 0
        &&& !s.paused()
    }

    /// The same state with tokenizer `t` in place of its own.
    pub closed spec fn with_tokenizer(&self, t: Tokenizer) -> Self {
        HtmlParser { tokenizer: t, ..*self }
    }

    /// `with_tokenizer` replaces the tokenizer and keeps everything else.
    pub proof fn lemma_with_tokenizer(s: &Self, t: Tokenizer)
        ensures
            s.with_tokenizer(t).tokenizer() == t,
            s.with_tokenizer(t).dom() == s.dom(),
            s.with_tokenizer(t).open_stack() == s.open_stack(),
            s.with_tokenizer(t).mode() == s.mode(),
            s.with_tokenizer(t).level() == s.level(),
            s.with_tokenizer(t).paused() == s.paused(),
    {
    }

    /// `post` is `pre` no longer paused, with nothing else changed.
    pub open spec fn resumed(pre: &Self, post: &Self) -> bool {
        &&& !post.paused()
        &&& post.tokenizer() == pre.tokenizer()
        &&& post.dom() == pre.dom()
        &&& post.open_stack() == pre.open_stack()
        &&& post.mode() == pre.mode()
        &&& post.level() == pre.level()
    }

    /// One move of a parse: a paused parser is resumed; otherwise one token is
    /// read and applied.
    pub open spec fn moves_to(pre: &Self, post: &Self) -> bool {
        if pre.paused() {
            Self::resumed(pre, post)
        } else {
            !pre.finished() && exists|t: Token, mid: Tokenizer|
                Tokenizer::reads(&pre.tokenizer(), &mid, &t) && Self::applies(
                    &pre.with_tokenizer(mid),
                    post,
                    &t,
                )
        }
    }

    /// `trace` is a whole parse of `input`: it starts fresh, makes one move at
    /// a time, and ends when the end of the input has been processed.
    pub open spec fn is_run(trace: Seq<Self>, input: Seq<char>) -> bool {
        &&& trace.len() >= 1
        &&& Self::is_initial(&trace[0], input)
        &&& forall|i: int|
            #![trigger trace[i]]
            0 <= i < trace.len() - 1 ==> Self::moves_to(&trace[i], &trace[i + 1])
        &&& trace.last().finished()
    }

    /// Every consecutive pair of `trace` is one move of a parse.
    pub open spec fn is_chain(trace: Seq<Self>) -> bool {
        forall|i: int|
            #![trigger trace[i]]
            0 <= i < trace.len() - 1 ==> Self::moves_to(&trace[i], &trace[i + 1])
    }

    /// Resuming from outside continues the same parse: moves up to a pause,
    /// the resumption, and the moves after it form one chain of moves from the
    /// first state, so a run that is paused and resumed ends where an
    /// uninterrupted one would.
    pub proof fn lemma_resume_continues(before: Seq<Self>, after: Seq<Self>)
        requires
            before.len() >= 1,
            after.len() >= 1,
            Self::is_chain(before),
            Self::is_chain(after),
            before.last().paused(),
            Self::resumed(&before.last(), &after[0]),
        ensures
            Self::is_chain(before + after),
            (before + after)[0] == before[0],
            (before + after).last() == after.last(),
    {
        let all = before + after;
        assert forall|i: int| #![trigger all[i]] 0 <= i < all.len() - 1 implies Self::moves_to(
            &all[i],
            &all[i + 1],
        ) by {
            if i < before.len() - 1 {
                assert(all[i] == before[i] && all[i + 1] == before[i + 1]);
            } else if i == before.len() - 1 {
                assert(all[i] == before.last() && all[i + 1] == after[0]);
            } else {
                let j = i - before.len();
                assert(all[i] == after[j] && all[i + 1] == after[j + 1]);
            }
        }
    }

    /// Applies one token to the tree, the stack and the modes.
    pub fn process_token(&mut self, t: Token)
        requires
            old(self).wf(),
            !old(self).finished(),
            t is EndOfStream || old(self).dom()@.len() < usize::MAX,
            t is EndOfStream ==> old(self).tokenizer().pos() == old(self).tokenizer().input().len(),
        ensures
            final(self).wf(),
            Self::applies(old(self), final(self), &t),
    {
        match t {
            Token::StartTag { name, attributes, self_closing: _ } => {
                let raw = is_raw_text(&name);
                let script = is_script(&name);
                let raw_name = if raw { copy_chars(&name) } else { Vec::new() };
                let data = element_data(name, attributes);
                let top = self.open[self.open.len() - 1];
                let ghost pre = *self;
                let r = self.dom.add_child(top, data);
                proof {
                    HtmlDom::lemma_added_keeps_live(
                        &pre.dom,
                        &self.dom,
                        top as int,
                        self.dom@[pre.dom@.len() as int].data,
                    );
                }
                match r {
                    Ok(id) => {
                        self.open.push(id);
                        proof {
                            assert forall|k: int| 0 <= k < self.open@.len() implies self.dom.live(
                                #[trigger] self.open@[k] as int,
                            ) by {
                                if k < pre.open@.len() {
                                    assert(self.open@[k] == pre.open@[k]);
                                    assert(pre.dom.live(pre.open@[k] as int));
                                }
                            }
                            assert forall|k: int| 1 <= k < self.open@.len() implies #[trigger] self.open@[k]
                                != 0 by {
                                if k < pre.open@.len() {
                                    assert(self.open@[k] == pre.open@[k]);
                                }
                            }
                        }
                    },
                    Err(_) => {},
                }
                if raw {
                    self.tokenizer.set_raw_text(raw_name);
                    self.mode = InsertionMode::Text;
                }
                if script {
                    if self.script_nesting_level < 255 {
                        self.script_nesting_level = self.script_nesting_level + 1;
                    }
                    self.parser_paused = true;
                }
            },
            Token::EndTag { name } => {
                self.close_element(&name);
                if self.mode == InsertionMode::Text && !self.tokenizer.in_raw_text() {
                    self.mode = InsertionMode::InBody;
                }
            },
            Token::Character { c } => {
                self.insert_char(c);
            },
            Token::Comment { data } => {
                let top = self.open[self.open.len() - 1];
                let ghost pre = *self;
                let r = self.dom.add_child(top, NodeData::comment(data));
                proof {
                    HtmlDom::lemma_added_keeps_live(
                        &pre.dom,
                        &self.dom,
                        top as int,
                        self.dom@[pre.dom@.len() as int].data,
                    );
                }
            },
            Token::EndOfStream => {
                self.open.truncate(1);
                assert(self.open@ =~= seq![0usize]);
                self.mode = InsertionMode::AfterBody;
            },
        }
    }
    /// The tree never holds more nodes than one past the characters read.
    pub open spec fn bounded(&self) -> bool {
        &&& self.dom()@.len() <= self.tokenizer().pos() + 1
        &&& self.tokenizer().input().len() < usize::MAX
    }

    /// A measure of the work left, which each step lowers.
    pub open spec fn work_left(&self) -> int {
        4 * (self.tokenizer().input().len() - self.tokenizer().pos()) + (if self.finished() {
            0int
        } else {
            2int
        }) + (if self.paused() {
            1int
        } else {
            0int
        })
    }

    /// Pulls one token from the tokenizer and applies it. A paused or finished
    /// parser does nothing and reports that it made no progress.
    pub fn step(&mut self) -> (progressed: bool)
        requires
            old(self).wf(),
            old(self).bounded(),
        ensures
            final(self).wf(),
            final(self).bounded(),
            final(self).tokenizer().input() == old(self).tokenizer().input(),
            progressed == !(old(self).paused() || old(self).finished()),
            !progressed ==> *final(self) == *old(self),
            progressed ==> final(self).work_left() < old(self).work_left(),
            progressed ==> Self::moves_to(old(self), final(self)),
            progressed ==> final(self).tokenizer().pos() > old(self).tokenizer().pos()
                || final(self).finished(),
            progressed && final(self).finished() ==> !final(self).paused(),
    {
        if self.parser_paused || self.mode == InsertionMode::AfterBody {
            return false;
        }
        let ghost pre = *self;
        let t = self.tokenizer.next_token();
        let ghost mid = self.tokenizer;
        assert(*self == pre.with_tokenizer(mid));
        self.process_token(t);
        true
    }

    /// Steps from where the parse stands until the input is used up or a script
    /// pauses it. A paused or finished parser is left as it is.
    pub fn run(&mut self)
        requires
            old(self).wf(),
            old(self).bounded(),
        ensures
            final(self).wf(),
            final(self).bounded(),
            final(self).tokenizer().input() == old(self).tokenizer().input(),
            final(self).paused() || final(self).finished(),
            old(self).paused() || old(self).finished() ==> *final(self) == *old(self),
            exists|trace: Seq<HtmlParser>|
                {
                    &&& trace.len() >= 1
                    &&& trace[0] == *old(self)
                    &&& trace.last() == *final(self)
                    &&& forall|i: int|
                        #![trigger trace[i]]
                        0 <= i < trace.len() - 1 ==> !trace[i].paused() && Self::moves_to(
                            &trace[i],
                            &trace[i + 1],
                        )
                },
    {
        let ghost mut trace: Seq<HtmlParser> = seq![*self];
        while !self.parser_paused && self.mode != InsertionMode::AfterBody
            invariant
                self.wf(),
                self.bounded(),
                self.tokenizer().input() == old(self).tokenizer().input(),
                trace.len() >= 1,
                trace[0] == *old(self),
                trace.last() == *self,
                forall|i: int|
                    #![trigger trace[i]]
                    0 <= i < trace.len() - 1 ==> !trace[i].paused() && Self::moves_to(
                        &trace[i],
                        &trace[i + 1],
                    ),
                (old(self).paused() || old(self).finished()) ==> trace.len() == 1,
            decreases self.work_left(),
        {
            let ghost pre = *self;
            self.step();
            proof {
                let old_trace = trace;
                trace = trace.push(*self);
                assert forall|i: int|
                    #![trigger trace[i]]
                    0 <= i < trace.len() - 1 implies !trace[i].paused() && Self::moves_to(
                        &trace[i],
                        &trace[i + 1],
                    ) by {
                    if i < old_trace.len() - 1 {
                        assert(trace[i] == old_trace[i] && trace[i + 1] == old_trace[i + 1]);
                    }
                }
            }
        }
    }

    /// Parses `html_str` from the start with fresh state, resuming at every
    /// script pause, and hands out the finished tree. Malformed markup is
    /// recovered from, so a tree always comes back.
    #[verifier::rlimit(50)]
    pub fn parse(&mut self, html_str: &str) -> (r: Either<ParseError, HtmlDom>)
        requires
            html_str@.len() < usize::MAX,
        ensures
            r matches Either::Right(dom) && dom.wf() && dom@.len() <= html_str@.len() + 1 && exists|
                trace: Seq<HtmlParser>,
            |
                Self::is_run(trace, html_str@) && dom == trace.last().dom() && final(self).level()
                    == trace.last().level(),
            final(self).wf(),
            final(self).finished(),
            !final(self).paused(),
    {
        let input = decode_chars(html_str);
        *self = HtmlParser::with_input(input);
        let ghost mut trace: Seq<HtmlParser> = seq![*self];
        while self.mode != InsertionMode::AfterBody
            invariant
                self.wf(),
                self.bounded(),
                trace.len() >= 1,
                Self::is_initial(&trace[0], html_str@),
                forall|i: int|
                    #![trigger trace[i]]
                    0 <= i < trace.len() - 1 ==> Self::moves_to(&trace[i], &trace[i + 1]),
                trace.last() == *self,
                self.finished() ==> !self.paused(),
                self.tokenizer().input() == html_str@,
            decreases self.work_left(),
        {
            let ghost pre = *self;
            if self.parser_paused {
                self.resume();
            } else {
                self.step();
            }
            proof {
                let old_trace = trace;
                trace = trace.push(*self);
                assert forall|i: int|
                    #![trigger trace[i]]
                    0 <= i < trace.len() - 1 implies Self::moves_to(&trace[i], &trace[i + 1]) by {
                    if i < old_trace.len() - 1 {
                        assert(trace[i] == old_trace[i] && trace[i + 1] == old_trace[i + 1]);
                    }
                }
            }
        }
        let ghost last = *self;
        assert(last.dom()@.len() <= html_str@.len() + 1);
        let mut out = HtmlDom::new();
        std::mem::swap(&mut self.dom, &mut out);
        assert(out == last.dom());
        assert(Self::is_run(trace, html_str@) && out == trace.last().dom() && self.level()
            == trace.last().level());
        Either::Right(out)
    }
}

/// Parses `html_str` into a document tree with a parser of its own.
pub fn parse_html(html_str: &str) -> (r: Either<ParseError, HtmlDom>)
    requires
        html_str@.len() < usize::MAX,
    ensures
        r matches Either::Right(dom) && dom.wf() && dom@.len() <= html_str@.len() + 1 && exists|
            trace: Seq<HtmlParser>,
        | HtmlParser::is_run(trace, html_str@) && dom == trace.last().dom(),
{
    HtmlParser::new().parse(html_str)
}

fn copy_chars(v: &Vec<char>) -> (r: Vec<char>)
    ensures
        r@ == v@,
{
    let mut out: Vec<char> = Vec::new();
    let mut i: usize = 0;
    while i < v.len()
        invariant
            i <= v@.len(),
            out@ == v@.subrange(0, i as int),
        decreases v@.len() - i,
    {
        out.push(v[i]);
        i += 1;
        assert(out@ =~= v@.subrange(0, i as int));
    }
    out
}

} // verus!
