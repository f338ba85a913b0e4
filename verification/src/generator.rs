//! The generator: prints a syntax tree back as CSS, with vendor-prefixed copies
//! of the declarations whose properties need them.

use vstd::prelude::*;
use crate::parser::{AST, Node, NodeKind, NodeKindView, NodeView, is_at_rule_node, is_declaration_node, is_rule_node, is_top_level_node, node_view, nodes_view};
use crate::text::{push_char, str_eq};

verus! {

/// `n` spaces.
pub open spec fn spaces(n: nat) -> Seq<char> {
    Seq::new(n, |i: int| ' ')
}

/// Properties that get a `-webkit-` copy only.
pub open spec fn needs_webkit(p: Seq<char>) -> bool {
    ||| p == "mask"@
    ||| p == "mask-image"@
    ||| p == "mask-mode"@
    ||| p == "mask-repeat"@
    ||| p == "mask-position"@
    ||| p == "mask-clip"@
    ||| p == "mask-origin"@
    ||| p == "mask-size"@
    ||| p == "mask-composite"@
    ||| p == "mask-border"@
    ||| p == "text-emphasis"@
    ||| p == "text-emphasis-position"@
    ||| p == "text-emphasis-style"@
    ||| p == "text-emphasis-color"@
    ||| p == "backdrop-filter"@
    ||| p == "print-color-adjust"@
    ||| p == "clip-path"@
    ||| p == "transition"@
    ||| p == "transform"@
    ||| p == "animation"@
    ||| p == "animation-name"@
    ||| p == "animation-duration"@
    ||| p == "animation-timing-function"@
    ||| p == "animation-delay"@
    ||| p == "animation-iteration-count"@
    ||| p == "animation-direction"@
    ||| p == "animation-fill-mode"@
    ||| p == "animation-play-state"@
}

/// The vendor prefixes written before a declaration of `property`, in order.
pub open spec fn prefixes_for(property: Seq<char>) -> Seq<Seq<char>> {
    if needs_webkit(property) {
        seq!["-webkit-"@]
    } else if property == "appearance"@ {
        seq!["-webkit-"@, "-moz-"@]
    } else if property == "tab-size"@ {
        seq!["-moz-"@]
    } else {
        Seq::empty()
    }
}

/// One declaration line: `indent` spaces, `prefix property: value;` and a newline.
pub open spec fn declaration_line(indent: nat, prefix: Seq<char>, property: Seq<char>, value: Seq<char>) -> Seq<char> {
    spaces(indent) + prefix + property + seq![':', ' '] + value + seq![';', '\n']
}

/// The prefixed lines of a declaration, one per prefix in `prefixes`.
pub open spec fn prefixed_lines(indent: nat, prefixes: Seq<Seq<char>>, property: Seq<char>, value: Seq<char>) -> Seq<char>
    decreases prefixes.len(),
{
    if prefixes.len() == 0 {
        Seq::empty()
    } else {
        prefixed_lines(indent, prefixes.drop_last(), property, value) + declaration_line(
            indent,
            prefixes.last(),
            property,
            value,
        )
    }
}

/// A declaration: its prefixed copies, then the declaration itself.
pub open spec fn gen_declaration(indent: nat, property: Seq<char>, value: Seq<char>) -> Seq<char> {
    prefixed_lines(indent, prefixes_for(property), property, value) + declaration_line(
        indent,
        Seq::empty(),
        property,
        value,
    )
}

/// A rule printed at `indent` with selector `selector` around the text `inner`
/// of its children: `selector {`, the children, `}`, and a blank line after a
/// rule at the top level.
pub open spec fn rule_text(indent: nat, selector: Seq<char>, inner: Seq<char>) -> Seq<char> {
    spaces(indent) + selector + seq![' ', '{', '\n'] + inner + spaces(indent) + seq!['}', '\n'] + if indent == 0 {
        seq!['\n']
    } else {
        Seq::empty()
    }
}

/// An at-rule printed at `indent`: `name params;` without a block, or
/// `name params {`, the block's text, `}` with one; then a blank line.
pub open spec fn at_rule_text(indent: nat, name: Seq<char>, params: Seq<char>, block: Option<Seq<char>>) -> Seq<char> {
    spaces(indent) + name + seq![' '] + params + match block {
        None => seq![';'],
        Some(inner) => seq![' ', '{', '\n'] + inner + spaces(indent) + seq!['}', '\n'],
    } + seq!['\n']
}

/// The CSS text of a node at `indent`.
pub open spec fn gen_node(n: NodeView, indent: nat) -> Seq<char>
    decreases n,
{
    match n.kind {
        NodeKindView::Rule { selector } => rule_text(
            indent,
            selector,
            match n.children {
                Some(ch) => gen_nodes(ch, indent + 2),
                None => Seq::empty(),
            },
        ),
        NodeKindView::AtRule { name, params } => at_rule_text(
            indent,
            name,
            params,
            match n.children {
                Some(ch) => Some(gen_nodes(ch, indent + 2)),
                None => None,
            },
        ),
        NodeKindView::Declaration { property, value } => gen_declaration(indent, property, value),
        NodeKindView::Comment { text } => text + seq!['\n'],
    }
}

/// The CSS text of a sequence of nodes at `indent`, one after the other.
pub open spec fn gen_nodes(s: Seq<NodeView>, indent: nat) -> Seq<char>
    decreases s,
{
    if s.len() == 0 {
        Seq::empty()
    } else {
        gen_nodes(s.subrange(0, s.len() - 1), indent) + gen_node(s[s.len() - 1], indent)
    }
}

/// How many levels of indentation printing `n` opens: a rule always opens one,
/// an at-rule one when it has a block.
pub open spec fn node_depth(n: NodeView) -> nat
    decreases n,
{
    match n.kind {
        NodeKindView::Rule { .. } => 1 + match n.children {
            Some(ch) => nodes_depth(ch),
            None => 0,
        },
        NodeKindView::AtRule { .. } => match n.children {
            Some(ch) => 1 + nodes_depth(ch),
            None => 0,
        },
        _ => 0,
    }
}

/// The largest depth among `s`.
pub open spec fn nodes_depth(s: Seq<NodeView>) -> nat
    decreases s,
{
    if s.len() == 0 {
        0
    } else {
        let a = nodes_depth(s.subrange(0, s.len() - 1));
        let b = node_depth(s[s.len() - 1]);
        if a >= b {
            a
        } else {
            b
        }
    }
}

/// How deep the children of `n` nest, whatever the kinds of the nodes.
pub open spec fn node_height(n: NodeView) -> nat
    decreases n,
{
    match n.children {
        Some(ch) => 1 + nodes_height(ch),
        None => 0,
    }
}

/// The largest height among `s`.
pub open spec fn nodes_height(s: Seq<NodeView>) -> nat
    decreases s,
{
    if s.len() == 0 {
        0
    } else {
        let a = nodes_height(s.subrange(0, s.len() - 1));
        let b = node_height(s[s.len() - 1]);
        if a >= b {
            a
        } else {
            b
        }
    }
}

pub proof fn lemma_nodes_height_bound(s: Seq<NodeView>, i: int)
    requires
        0 <= i < s.len(),
    ensures
        node_height(s[i]) <= nodes_height(s),
    decreases s.len(),
{
    if i < s.len() - 1 {
        lemma_nodes_height_bound(s.subrange(0, s.len() - 1), i);
    }
}

/// The depth of the children a node may have (0 without children).
pub open spec fn children_depth(children: Option<Seq<NodeView>>) -> nat {
    match children {
        Some(ch) => nodes_depth(ch),
        None => 0,
    }
}

pub proof fn lemma_nodes_depth_bound(s: Seq<NodeView>, i: int)
    requires
        0 <= i < s.len(),
    ensures
        node_depth(s[i]) <= nodes_depth(s),
    decreases s.len(),
{
    if i < s.len() - 1 {
        lemma_nodes_depth_bound(s.subrange(0, s.len() - 1), i);
    }
}

/// When every node of `s` has depth at most `k`, so has `s`.
pub proof fn lemma_nodes_depth_max(s: Seq<NodeView>, k: nat)
    requires
        forall|i: int| 0 <= i < s.len() ==> #[trigger] node_depth(s[i]) <= k,
    ensures
        nodes_depth(s) <= k,
    decreases s.len(),
{
    if s.len() > 0 {
        let pre = s.subrange(0, s.len() - 1);
        assert forall|i: int| 0 <= i < pre.len() implies #[trigger] node_depth(pre[i]) <= k by {
            assert(pre[i] == s[i]);
        }
        lemma_nodes_depth_max(pre, k);
        assert(node_depth(s[s.len() - 1]) <= k);
    }
}

/// Printing a parsed tree opens at most two levels of indentation: a rule's
/// block, inside an at-rule's block.
pub proof fn lemma_parsed_tree_depth(tree: Seq<NodeView>)
    requires
        forall|i: int| 0 <= i < tree.len() ==> #[trigger] is_top_level_node(tree[i]),
    ensures
        nodes_depth(tree) <= 2,
{
    assert forall|i: int| 0 <= i < tree.len() implies #[trigger] node_depth(tree[i]) <= 2 by {
        let n = tree[i];
        assert(is_top_level_node(n));
        if is_rule_node(n) {
            lemma_rule_node_depth(n);
        } else if is_at_rule_node(n) {
            if let Some(ch) = n.children {
                assert forall|j: int| 0 <= j < ch.len() implies #[trigger] node_depth(ch[j]) <= 1 by {
                    assert(is_rule_node(ch[j]));
                    lemma_rule_node_depth(ch[j]);
                }
                lemma_nodes_depth_max(ch, 1);
            }
        }
    }
    lemma_nodes_depth_max(tree, 2);
}

pub proof fn lemma_rule_node_depth(n: NodeView)
    requires
        is_rule_node(n),
    ensures
        node_depth(n) == 1,
{
    let ch = n.children->Some_0;
    assert forall|j: int| 0 <= j < ch.len() implies #[trigger] node_depth(ch[j]) <= 0 by {
        assert(is_declaration_node(ch[j]));
    }
    lemma_nodes_depth_max(ch, 0);
}

pub proof fn lemma_nodes_view_index(s: Seq<Node>)
    ensures
        nodes_view(s).len() == s.len(),
        forall|i: int| 0 <= i < s.len() ==> #[trigger] nodes_view(s)[i] == node_view(s[i]),
    decreases s.len(),
{
    if s.len() > 0 {
        lemma_nodes_view_index(s.subrange(0, s.len() - 1));
    }
}

pub proof fn lemma_gen_nodes_push(s: Seq<NodeView>, n: NodeView, indent: nat)
    ensures
        gen_nodes(s.push(n), indent) == gen_nodes(s, indent) + gen_node(n, indent),
{
    assert(s.push(n).subrange(0, s.len() as int) == s);
}

/// Printing a joined list of nodes gives the joined printed texts: each node
/// is printed on its own, in order.
pub proof fn lemma_gen_nodes_concat(a: Seq<NodeView>, b: Seq<NodeView>, indent: nat)
    ensures
        gen_nodes(a + b, indent) == gen_nodes(a, indent) + gen_nodes(b, indent),
    decreases b.len(),
{
    if b.len() == 0 {
        assert(a + b == a);
    } else {
        let b0 = b.subrange(0, b.len() - 1);
        lemma_gen_nodes_concat(a, b0, indent);
        assert((a + b).subrange(0, (a + b).len() - 1) == a + b0);
        assert((a + b)[(a + b).len() - 1] == b[b.len() - 1]);
    }
}

/// Generating a tree whose body is `a` followed by `b` gives the text of `a`
/// followed by the text of `b`.
pub proof fn lemma_generate_concat(a: Seq<Node>, b: Seq<Node>, indent: nat)
    ensures
        gen_nodes(nodes_view(a + b), indent) == gen_nodes(nodes_view(a), indent) + gen_nodes(nodes_view(b), indent),
{
    lemma_nodes_view_concat(a, b);
    lemma_gen_nodes_concat(nodes_view(a), nodes_view(b), indent);
}

/// The view of a joined list of nodes is the joined views.
pub proof fn lemma_nodes_view_concat(a: Seq<Node>, b: Seq<Node>)
    ensures
        nodes_view(a + b) == nodes_view(a) + nodes_view(b),
    decreases b.len(),
{
    if b.len() == 0 {
        assert(a + b == a);
    } else {
        let b0 = b.subrange(0, b.len() - 1);
        lemma_nodes_view_concat(a, b0);
        assert((a + b).subrange(0, (a + b).len() - 1) == a + b0);
        assert((a + b)[(a + b).len() - 1] == b[b.len() - 1]);
    }
}

pub proof fn lemma_prefixed_lines_push(indent: nat, ps: Seq<Seq<char>>, p: Seq<char>, property: Seq<char>, value: Seq<char>)
    ensures
        prefixed_lines(indent, ps.push(p), property, value) == prefixed_lines(indent, ps, property, value)
            + declaration_line(indent, p, property, value),
{
    assert(ps.push(p).drop_last() == ps);
}


/// A string of `n` spaces.
fn spaces_string(n: usize) -> (s: String)
    ensures
        s@ == spaces(n as nat),
{
    let mut s = String::new();
    for i in 0..n
        invariant
            s@ == spaces(i as nat),
    {
        push_char(&mut s, ' ');
        assert(s@ =~= spaces((i + 1) as nat));
    }
    s
}

/// The vendor prefixes for `property`.
fn vendor_prefixes(property: &str) -> (r: Vec<&'static str>)
    ensures
        r@.len() == prefixes_for(property@).len(),
        forall|i: int| 0 <= i < r@.len() ==> #[trigger] r@[i]@ == prefixes_for(property@)[i],
{
    if str_eq(property, "mask") || str_eq(property, "mask-image") || str_eq(property, "mask-mode")
        || str_eq(property, "mask-repeat") || str_eq(property, "mask-position") || str_eq(
        property,
        "mask-clip",
    ) || str_eq(property, "mask-origin") || str_eq(property, "mask-size") || str_eq(
        property,
        "mask-composite",
    ) || str_eq(property, "mask-border") || str_eq(property, "text-emphasis") || str_eq(
        property,
        "text-emphasis-position",
    ) || str_eq(property, "text-emphasis-style") || str_eq(property, "text-emphasis-color")
        || str_eq(property, "backdrop-filter") || str_eq(property, "print-color-adjust") || str_eq(
        property,
        "clip-path",
    ) || str_eq(property, "transition") || str_eq(property, "transform") || str_eq(
        property,
        "animation",
    ) || str_eq(property, "animation-name") || str_eq(property, "animation-duration") || str_eq(
        property,
        "animation-timing-function",
    ) || str_eq(property, "animation-delay") || str_eq(property, "animation-iteration-count")
        || str_eq(property, "animation-direction") || str_eq(property, "animation-fill-mode")
        || str_eq(property, "animation-play-state") {
        vec!["-webkit-"]
    } else if str_eq(property, "appearance") {
        vec!["-webkit-", "-moz-"]
    } else if str_eq(property, "tab-size") {
        vec!["-moz-"]
    } else {
        Vec::new()
    }
}

/// Prints a syntax tree as CSS.
pub struct Generator {
    ast: AST,
    indent: usize,
}

impl Generator {
    /// The tree being printed.
    pub closed spec fn tree(&self) -> Seq<NodeView> {
        self.ast@
    }

    /// The current indentation, in spaces.
    pub closed spec fn indentation(&self) -> nat {
        self.indent as nat
    }

    /// A generator for `ast`, at indentation 0.
    pub fn new(ast: AST) -> (g: Self)
        ensures
            g.tree() == ast@,
            g.indentation() == 0,
    {
        Self { ast, indent: 0 }
    }

    fn generate_rule(&mut self, node: &Node, selector: &str) -> (out: String)
        requires
            old(self).indent + 2 + 2 * children_depth(node@.children) <= usize::MAX,
        ensures
            out@ == rule_text(
                old(self).indent as nat,
                selector@,
                match node@.children {
                    Some(ch) => gen_nodes(ch, (old(self).indent + 2) as nat),
                    None => Seq::empty(),
                },
            ),
            final(self).indent == old(self).indent,
            final(self).ast == old(self).ast,
        decreases node_height(node@), 0nat,
    {
        let ghost indent = self.indent as nat;
        let mut output = spaces_string(self.indent);
        output.append(selector);
        push_char(&mut output, ' ');
        push_char(&mut output, '{');
        push_char(&mut output, '\n');
        let ghost head = output@;
        self.indent = self.indent + 2;
        let ghost inner = self.indent as nat;
        match &node.children {
            Some(children) => {
                let ghost cv = nodes_view(children@);
                proof {
                    lemma_nodes_view_index(children@);
                    assert(node@.children == Some(cv));
                }
                let n = children.len();
                assert(cv.take(0) =~= Seq::<NodeView>::empty());
                for i in 0..n
                    invariant
                        n == children@.len(),
                        cv == nodes_view(children@),
                        cv.len() == n,
                        forall|j: int| 0 <= j < n ==> #[trigger] cv[j] == node_view(children@[j]),
                        node@.children == Some(cv),
                        node_height(node@) == 1 + nodes_height(cv),
                        self.indent == inner,
                        inner == indent + 2,
                        inner + 2 * nodes_depth(cv) <= usize::MAX,
                        self.ast == old(self).ast,
                        output@ == head + gen_nodes(cv.take(i as int), inner),
                {
                    proof {
                        lemma_nodes_depth_bound(cv, i as int);
                        lemma_nodes_height_bound(cv, i as int);
                        lemma_gen_nodes_push(cv.take(i as int), cv[i as int], inner);
                        assert(cv.take(i + 1) == cv.take(i as int).push(cv[i as int]));
                    }
                    let child = self.generate_node(&children[i]);
                    output.append(child.as_str());
                }
                assert(cv.take(n as int) == cv);
            },
            None => {},
        }
        self.indent = self.indent - 2;
        let close = spaces_string(self.indent);
        output.append(close.as_str());
        push_char(&mut output, '}');
        push_char(&mut output, '\n');
        if self.indent == 0 {
            push_char(&mut output, '\n');
        }
        output
    }

    fn generate_at_rule(&mut self, node: &Node, name: &str, params: &str) -> (out: String)
        requires
            node@.children is Some ==> old(self).indent + 2 + 2 * children_depth(node@.children)
                <= usize::MAX,
        ensures
            out@ == at_rule_text(
                old(self).indent as nat,
                name@,
                params@,
                match node@.children {
                    Some(ch) => Some(gen_nodes(ch, (old(self).indent + 2) as nat)),
                    None => None,
                },
            ),
            final(self).indent == old(self).indent,
            final(self).ast == old(self).ast,
        decreases node_height(node@), 0nat,
    {
        let ghost indent = self.indent as nat;
        let mut output = spaces_string(self.indent);
        output.append(name);
        push_char(&mut output, ' ');
        output.append(params);
        match &node.children {
            None => {
                push_char(&mut output, ';');
            },
            Some(children) => {
                push_char(&mut output, ' ');
                push_char(&mut output, '{');
                push_char(&mut output, '\n');
                let ghost head = output@;
                self.indent = self.indent + 2;
                let ghost inner = self.indent as nat;
                let ghost cv = nodes_view(children@);
                proof {
                    lemma_nodes_view_index(children@);
                    assert(node@.children == Some(cv));
                }
                let n = children.len();
                assert(cv.take(0) =~= Seq::<NodeView>::empty());
                for i in 0..n
                    invariant
                        n == children@.len(),
                        cv == nodes_view(children@),
                        cv.len() == n,
                        forall|j: int| 0 <= j < n ==> #[trigger] cv[j] == node_view(children@[j]),
                        node@.children == Some(cv),
                        node_height(node@) == 1 + nodes_height(cv),
                        self.indent == inner,
                        inner == indent + 2,
                        inner + 2 * nodes_depth(cv) <= usize::MAX,
                        self.ast == old(self).ast,
                        output@ == head + gen_nodes(cv.take(i as int), inner),
                {
                    proof {
                        lemma_nodes_depth_bound(cv, i as int);
                        lemma_nodes_height_bound(cv, i as int);
                        lemma_gen_nodes_push(cv.take(i as int), cv[i as int], inner);
                        assert(cv.take(i + 1) == cv.take(i as int).push(cv[i as int]));
                    }
                    let child = self.generate_node(&children[i]);
                    output.append(child.as_str());
                }
                assert(cv.take(n as int) == cv);
                self.indent = self.indent - 2;
                let close = spaces_string(self.indent);
                output.append(close.as_str());
                push_char(&mut output, '}');
                push_char(&mut output, '\n');
            },
        }
        push_char(&mut output, '\n');
        output
    }

    fn generate_declaration(&self, node: &Node, property: &str, value: &str) -> (out: String)
        ensures
            out@ == gen_declaration(self.indent as nat, property@, value@),
    {
        let ghost indent = self.indent as nat;
        let ghost ps = prefixes_for(property@);
        let mut output: String = String::new();
        let vendor_prefixes = self.prefix_property(property);
        let n = vendor_prefixes.len();
        assert(ps.take(0) =~= Seq::<Seq<char>>::empty());
        for i in 0..n
            invariant
                n == vendor_prefixes@.len(),
                n == ps.len(),
                ps == prefixes_for(property@),
                indent == self.indent,
                forall|j: int| 0 <= j < n ==> #[trigger] vendor_prefixes@[j]@ == ps[j],
                output@ == prefixed_lines(indent, ps.take(i as int), property@, value@),
        {
            proof {
                lemma_prefixed_lines_push(indent, ps.take(i as int), ps[i as int], property@, value@);
                assert(ps.take(i + 1) == ps.take(i as int).push(ps[i as int]));
            }
            let pad = spaces_string(self.indent);
            output.append(pad.as_str());
            output.append(vendor_prefixes[i]);
            output.append(property);
            push_char(&mut output, ':');
            push_char(&mut output, ' ');
            output.append(value);
            push_char(&mut output, ';');
            push_char(&mut output, '\n');
            assert(output@ =~= prefixed_lines(indent, ps.take(i as int), property@, value@)
                + declaration_line(indent, ps[i as int], property@, value@));
        }
        assert(ps.take(n as int) == ps);
        let pad = spaces_string(self.indent);
        output.append(pad.as_str());
        output.append(property);
        push_char(&mut output, ':');
        push_char(&mut output, ' ');
        output.append(value);
        push_char(&mut output, ';');
        push_char(&mut output, '\n');
        assert(output@ =~= gen_declaration(indent, property@, value@));
        output
    }

    fn generate_comment(&mut self, node: &Node, text: &str) -> (out: String)
        ensures
            out@ == text@ + seq!['\n'],
            *final(self) == *old(self),
    {
        let mut output = String::new();
        output.append(text);
        push_char(&mut output, '\n');
        output
    }

    fn generate_node(&mut self, node: &Node) -> (out: String)
        requires
            old(self).indent + 2 * node_depth(node@) <= usize::MAX,
        ensures
            out@ == gen_node(node@, old(self).indent as nat),
            final(self).indent == old(self).indent,
            final(self).ast == old(self).ast,
        decreases node_height(node@), 1nat,
    {
        match &node._type {
            NodeKind::Rule { selector } => self.generate_rule(node, selector.as_str()),
            NodeKind::AtRule { name, params } => self.generate_at_rule(node, name.as_str(), params.as_str()),
            NodeKind::Declaration { property, value } => self.generate_declaration(
                node,
                property.as_str(),
                value.as_str(),
            ),
            NodeKind::Comment { text } => self.generate_comment(node, text.as_str()),
        }
    }

    /// The vendor prefixes that a declaration of `property` gets.
    fn prefix_property(&self, property: &str) -> (r: Vec<&'static str>)
        ensures
            r@.len() == prefixes_for(property@).len(),
            forall|i: int| 0 <= i < r@.len() ==> #[trigger] r@[i]@ == prefixes_for(property@)[i],
    {
        vendor_prefixes(property)
    }

    /// Prints the whole tree, node after node.
    pub fn generate(&mut self) -> (output: String)
        requires
            old(self).indentation() + 2 * nodes_depth(old(self).tree()) <= usize::MAX,
        ensures
            output@ == gen_nodes(old(self).tree(), old(self).indentation()),
            final(self).tree() == old(self).tree(),
            final(self).indentation() == old(self).indentation(),
    {
        let ghost indent = self.indent as nat;
        let mut body: Vec<Node> = Vec::new();
        std::mem::swap(&mut body, &mut self.ast.body);
        let ghost bv = nodes_view(body@);
        proof {
            lemma_nodes_view_index(body@);
        }
        let mut output = String::new();
        let n = body.len();
        assert(bv.take(0) =~= Seq::<NodeView>::empty());
        for i in 0..n
            invariant
                n == body@.len(),
                bv == nodes_view(body@),
                bv.len() == n,
                forall|j: int| 0 <= j < n ==> #[trigger] bv[j] == node_view(body@[j]),
                self.indent == indent,
                indent + 2 * nodes_depth(bv) <= usize::MAX,
                output@ == gen_nodes(bv.take(i as int), indent),
        {
            proof {
                lemma_nodes_depth_bound(bv, i as int);
                lemma_gen_nodes_push(bv.take(i as int), bv[i as int], indent);
                assert(bv.take(i + 1) == bv.take(i as int).push(bv[i as int]));
            }
            let s = self.generate_node(&body[i]);
            output.append(s.as_str());
        }
        assert(bv.take(n as int) == bv);
        std::mem::swap(&mut body, &mut self.ast.body);
        output
    }
}


/// A declaration of `mask`, `mask-image`, `mask-mode`, `mask-repeat`,
/// `mask-position`, `mask-clip`, `mask-origin`, `mask-size`, `mask-composite`,
/// `mask-border`, `text-emphasis` (and its `-position`, `-style`, `-color`),
/// `backdrop-filter`, `print-color-adjust`, `clip-path`, `transition`,
/// `transform`, `animation` or one of the `animation-` longhands is printed as a
/// `-webkit-` copy followed by the declaration itself.
pub proof fn lemma_webkit_prefixed(indent: nat, property: Seq<char>, value: Seq<char>)
    requires
        property == "mask"@ ||
            property == "mask-image"@ ||
            property == "mask-mode"@ ||
            property == "mask-repeat"@ ||
            property == "mask-position"@ ||
            property == "mask-clip"@ ||
            property == "mask-origin"@ ||
            property == "mask-size"@ ||
            property == "mask-composite"@ ||
            property == "mask-border"@ ||
            property == "text-emphasis"@ ||
            property == "text-emphasis-position"@ ||
            property == "text-emphasis-style"@ ||
            property == "text-emphasis-color"@ ||
            property == "backdrop-filter"@ ||
            property == "print-color-adjust"@ ||
            property == "clip-path"@ ||
            property == "transition"@ ||
            property == "transform"@ ||
            property == "animation"@ ||
            property == "animation-name"@ ||
            property == "animation-duration"@ ||
            property == "animation-timing-function"@ ||
            property == "animation-delay"@ ||
            property == "animation-iteration-count"@ ||
            property == "animation-direction"@ ||
            property == "animation-fill-mode"@ ||
            property == "animation-play-state"@,
    ensures
        gen_declaration(indent, property, value) == declaration_line(indent, "-webkit-"@, property, value)
            + declaration_line(indent, Seq::empty(), property, value),
{
    assert(seq!["-webkit-"@].drop_last() =~= Seq::<Seq<char>>::empty());
    assert(prefixed_lines(indent, Seq::empty(), property, value) =~= Seq::<char>::empty());
}

/// The lengths and first characters of the property names in the prefix table,
/// which tell them apart.
proof fn lemma_prefix_table_literals()
    ensures
        "mask"@.len() == 4 && "mask"@[0] == 'm',
        "mask-image"@.len() == 10 && "mask-image"@[0] == 'm',
        "mask-mode"@.len() == 9 && "mask-mode"@[0] == 'm',
        "mask-repeat"@.len() == 11 && "mask-repeat"@[0] == 'm',
        "mask-position"@.len() == 13 && "mask-position"@[0] == 'm',
        "mask-clip"@.len() == 9 && "mask-clip"@[0] == 'm',
        "mask-origin"@.len() == 11 && "mask-origin"@[0] == 'm',
        "mask-size"@.len() == 9 && "mask-size"@[0] == 'm',
        "mask-composite"@.len() == 14 && "mask-composite"@[0] == 'm',
        "mask-border"@.len() == 11 && "mask-border"@[0] == 'm',
        "text-emphasis"@.len() == 13 && "text-emphasis"@[0] == 't',
        "text-emphasis-position"@.len() == 22 && "text-emphasis-position"@[0] == 't',
        "text-emphasis-style"@.len() == 19 && "text-emphasis-style"@[0] == 't',
        "text-emphasis-color"@.len() == 19 && "text-emphasis-color"@[0] == 't',
        "backdrop-filter"@.len() == 15 && "backdrop-filter"@[0] == 'b',
        "print-color-adjust"@.len() == 18 && "print-color-adjust"@[0] == 'p',
        "clip-path"@.len() == 9 && "clip-path"@[0] == 'c',
        "transition"@.len() == 10 && "transition"@[0] == 't',
        "transform"@.len() == 9 && "transform"@[0] == 't',
        "animation"@.len() == 9 && "animation"@[0] == 'a',
        "animation-name"@.len() == 14 && "animation-name"@[0] == 'a',
        "animation-duration"@.len() == 18 && "animation-duration"@[0] == 'a',
        "animation-timing-function"@.len() == 25 && "animation-timing-function"@[0] == 'a',
        "animation-delay"@.len() == 15 && "animation-delay"@[0] == 'a',
        "animation-iteration-count"@.len() == 25 && "animation-iteration-count"@[0] == 'a',
        "animation-direction"@.len() == 19 && "animation-direction"@[0] == 'a',
        "animation-fill-mode"@.len() == 19 && "animation-fill-mode"@[0] == 'a',
        "animation-play-state"@.len() == 20 && "animation-play-state"@[0] == 'a',
        "appearance"@.len() == 10 && "appearance"@[0] == 'a',
        "tab-size"@.len() == 8 && "tab-size"@[0] == 't',
{
    reveal_strlit("mask");
    reveal_strlit("mask-image");
    reveal_strlit("mask-mode");
    reveal_strlit("mask-repeat");
    reveal_strlit("mask-position");
    reveal_strlit("mask-clip");
    reveal_strlit("mask-origin");
    reveal_strlit("mask-size");
    reveal_strlit("mask-composite");
    reveal_strlit("mask-border");
    reveal_strlit("text-emphasis");
    reveal_strlit("text-emphasis-position");
    reveal_strlit("text-emphasis-style");
    reveal_strlit("text-emphasis-color");
    reveal_strlit("backdrop-filter");
    reveal_strlit("print-color-adjust");
    reveal_strlit("clip-path");
    reveal_strlit("transition");
    reveal_strlit("transform");
    reveal_strlit("animation");
    reveal_strlit("animation-name");
    reveal_strlit("animation-duration");
    reveal_strlit("animation-timing-function");
    reveal_strlit("animation-delay");
    reveal_strlit("animation-iteration-count");
    reveal_strlit("animation-direction");
    reveal_strlit("animation-fill-mode");
    reveal_strlit("animation-play-state");
    reveal_strlit("appearance");
    reveal_strlit("tab-size");
}

/// A declaration of `appearance` is printed as a `-webkit-` copy, a `-moz-`
/// copy, then the declaration itself.
pub proof fn lemma_appearance_prefixed(indent: nat, value: Seq<char>)
    ensures
        gen_declaration(indent, "appearance"@, value) == declaration_line(indent, "-webkit-"@, "appearance"@, value)
            + declaration_line(indent, "-moz-"@, "appearance"@, value) + declaration_line(
            indent,
            Seq::empty(),
            "appearance"@,
            value,
        ),
{
    lemma_prefix_table_literals();
    assert(!needs_webkit("appearance"@));
    let ps = seq!["-webkit-"@, "-moz-"@];
    assert(ps.drop_last() =~= seq!["-webkit-"@]);
    assert(seq!["-webkit-"@].drop_last() =~= Seq::<Seq<char>>::empty());
    assert(prefixed_lines(indent, Seq::empty(), "appearance"@, value) =~= Seq::<char>::empty());
    let a = declaration_line(indent, "-webkit-"@, "appearance"@, value);
    let b = declaration_line(indent, "-moz-"@, "appearance"@, value);
    let c = declaration_line(indent, Seq::empty(), "appearance"@, value);
    assert(prefixed_lines(indent, seq!["-webkit-"@], "appearance"@, value) =~= a);
    assert(prefixed_lines(indent, ps, "appearance"@, value) =~= a + b);
    assert(prefixes_for("appearance"@) == ps);
    assert(gen_declaration(indent, "appearance"@, value) =~= a + b + c);
}

/// A declaration of `tab-size` is printed as a `-moz-` copy, then the
/// declaration itself.
pub proof fn lemma_tab_size_prefixed(indent: nat, value: Seq<char>)
    ensures
        gen_declaration(indent, "tab-size"@, value) == declaration_line(indent, "-moz-"@, "tab-size"@, value)
            + declaration_line(indent, Seq::empty(), "tab-size"@, value),
{
    lemma_prefix_table_literals();
    assert(!needs_webkit("tab-size"@));
    assert("tab-size"@ != "appearance"@);
    assert(seq!["-moz-"@].drop_last() =~= Seq::<Seq<char>>::empty());
    assert(prefixed_lines(indent, Seq::empty(), "tab-size"@, value) =~= Seq::<char>::empty());
}

/// A declaration of any other property is printed once, without a prefixed copy.
pub proof fn lemma_unlisted_unprefixed(indent: nat, property: Seq<char>, value: Seq<char>)
    requires
        property != "mask"@,
        property != "mask-image"@,
        property != "mask-mode"@,
        property != "mask-repeat"@,
        property != "mask-position"@,
        property != "mask-clip"@,
        property != "mask-origin"@,
        property != "mask-size"@,
        property != "mask-composite"@,
        property != "mask-border"@,
        property != "text-emphasis"@,
        property != "text-emphasis-position"@,
        property != "text-emphasis-style"@,
        property != "text-emphasis-color"@,
        property != "backdrop-filter"@,
        property != "print-color-adjust"@,
        property != "clip-path"@,
        property != "transition"@,
        property != "transform"@,
        property != "animation"@,
        property != "animation-name"@,
        property != "animation-duration"@,
        property != "animation-timing-function"@,
        property != "animation-delay"@,
        property != "animation-iteration-count"@,
        property != "animation-direction"@,
        property != "animation-fill-mode"@,
        property != "animation-play-state"@,
        property != "appearance"@,
        property != "tab-size"@,
    ensures
        gen_declaration(indent, property, value) == declaration_line(indent, Seq::empty(), property, value),
{
    assert(prefixed_lines(indent, Seq::empty(), property, value) =~= Seq::<char>::empty());
}


/// The indentation is that many spaces.
pub proof fn lemma_spaces(n: nat)
    ensures
        spaces(n).len() == n,
        forall|i: int| 0 <= i < n ==> #[trigger] spaces(n)[i] == ' ',
{
}

/// What each kind of node prints as, at indentation `i`:
/// - a rule: `i` spaces, the selector, ` {` and a newline, its children at
///   `i + 2`, `i` spaces, `}` and a newline, and one more newline at the top level;
/// - an at-rule without a block: `i` spaces, the name, a space, the
///   parameters, `;`, a newline and a blank line;
/// - an at-rule with a block: `i` spaces, the name, a space, the parameters,
///   ` {` and a newline, its children at `i + 2`, `i` spaces, `}`, a newline
///   and a blank line;
/// - a comment: its text and a newline, whatever the indentation.
pub proof fn lemma_node_text(n: NodeView, i: nat)
    ensures
        n.kind matches NodeKindView::Rule { selector } ==> gen_node(n, i) == spaces(i) + selector + seq![' ', '{', '\n']
            + (match n.children {
            Some(ch) => gen_nodes(ch, i + 2),
            None => Seq::empty(),
        }) + spaces(i) + seq!['}', '\n'] + (if i == 0 {
            seq!['\n']
        } else {
            Seq::empty()
        }),
        n.kind matches NodeKindView::AtRule { name, params } ==> (n.children is None ==> gen_node(n, i)
            == spaces(i) + name + seq![' '] + params + seq![';', '\n']) && (n.children is Some ==> gen_node(n, i)
            == spaces(i) + name + seq![' '] + params + seq![' ', '{', '\n'] + gen_nodes(n.children->Some_0, i + 2)
            + spaces(i) + seq!['}', '\n', '\n']),
        n.kind matches NodeKindView::Comment { text } ==> gen_node(n, i) == text + seq!['\n'],
{
    match n.kind {
        NodeKindView::Rule { selector } => {
            let inner = match n.children {
                Some(ch) => gen_nodes(ch, i + 2),
                None => Seq::empty(),
            };
            assert(rule_text(i, selector, inner) =~= spaces(i) + selector + seq![' ', '{', '\n'] + inner + spaces(i)
                + seq!['}', '\n'] + (if i == 0 {
                seq!['\n']
            } else {
                Seq::empty()
            }));
        },
        NodeKindView::AtRule { name, params } => {
            if let Some(ch) = n.children {
                assert(at_rule_text(i, name, params, Some(gen_nodes(ch, i + 2))) =~= spaces(i) + name + seq![' ']
                    + params + seq![' ', '{', '\n'] + gen_nodes(ch, i + 2) + spaces(i) + seq!['}', '\n', '\n']);
            } else {
                assert(at_rule_text(i, name, params, None) =~= spaces(i) + name + seq![' '] + params + seq![';', '\n']);
            }
        },
        _ => {},
    }
}

/// A declaration's last line is the declaration itself,
/// `indent` spaces, `property: value;` and a newline, after one line per prefix.
pub proof fn lemma_declaration_text(indent: nat, property: Seq<char>, value: Seq<char>)
    ensures
        gen_declaration(indent, property, value) == prefixed_lines(indent, prefixes_for(property), property, value)
            + spaces(indent) + property + seq![':', ' '] + value + seq![';', '\n'],
{
    assert(declaration_line(indent, Seq::empty(), property, value) =~= spaces(indent) + property + seq![':', ' ']
        + value + seq![';', '\n']);
    assert(gen_declaration(indent, property, value) =~= prefixed_lines(indent, prefixes_for(property), property, value)
        + spaces(indent) + property + seq![':', ' '] + value + seq![';', '\n']);
}

} // verus!
