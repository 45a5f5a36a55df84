use vstd::prelude::*;
use vstd::string::StringExecFns;
use crate::tree::{Permission, Tree, TreeNode};

verus! {

/// The text that `{:?}` gives for a string: the characters in double quotes, with
/// quotes, backslashes and control characters escaped. It depends on the characters
/// alone.
pub uninterp spec fn debug_text(s: Seq<char>) -> Seq<char>;

/// Relies on `<str as Debug>::fmt`, through `format!("{:?}")`, for the quoted and
/// escaped form of `t`.
#[verifier::external_body]
fn debug_string(t: &str) -> (r: String)
    ensures
        r@ == debug_text(t@),
{
    format!("{:?}", t)
}

/// Appends the character `c` to `s`.
/// Relies on `String::push`: `c` is added at the end of `s`.
#[verifier::external_body]
fn append_char(s: &mut String, c: char)
    ensures
        final(s)@ == old(s)@.push(c),
{
    s.push(c);
}

pub open spec fn digit(d: nat) -> char {
    seq!['0', '1', '2', '3', '4', '5', '6', '7', '8', '9'][d as int]
}

/// Decimal digits of `n`, most significant first.
pub open spec fn decimal(n: nat) -> Seq<char>
    decreases n,
{
    if n < 10 {
        seq![digit(n)]
    } else {
        decimal(n / 10).push(digit(n % 10))
    }
}

pub open spec fn spaces(n: nat) -> Seq<char> {
    Seq::new(n, |i: int| ' ')
}

pub open spec fn permission_text(p: Permission) -> Seq<char> {
    match p {
        Permission::Public => seq!['P', 'u', 'b', 'l', 'i', 'c'],
        Permission::Private => seq!['P', 'r', 'i', 'v', 'a', 't', 'e'],
    }
}

/// The pieces in order, separated by ", ".
pub open spec fn comma_list(parts: Seq<Seq<char>>) -> Seq<char>
    decreases parts.len(),
{
    if parts.len() == 0 {
        seq![]
    } else {
        let head = if parts.len() == 1 { seq![] } else { comma_list(parts.drop_last()) + seq![',', ' '] };
        head + parts.last()
    }
}

/// The `{:?}` form of each label, in list order.
pub open spec fn debug_forms(v: Seq<String>) -> Seq<Seq<char>> {
    v.map_values(|s: String| debug_text(s@))
}

/// A present tag list written from the forms of its labels: `Some({..})`.
pub open spec fn set_text(forms: Seq<Seq<char>>) -> Seq<char> {
    seq!['S', 'o', 'm', 'e', '(', '{'] + comma_list(forms) + seq!['}', ')']
}

pub open spec fn tags_text(o: Option<Vec<String>>) -> Seq<char> {
    match o {
        Some(v) => set_text(debug_forms(v@)),
        None => seq!['N', 'o', 'n', 'e'],
    }
}

/// One line for a node: indentation, key, visibility and tags.
pub open spec fn node_line(n: TreeNode, indent: usize) -> Seq<char> {
    spaces(indent as nat) + seq!['-', ' ', 'n', 'o', 'd', 'e', ' '] + decimal(n.id as nat) + seq![' ', '(']
        + permission_text(n.permission) + seq![')', ',', ' ', 't', 'a', 'g', 's', ':', ' ']
        + tags_text(n.tags) + seq!['\n']
}

/// The rendering of the subtree of `k`: its line, then each child's subtree
/// indented four more columns. Empty for a key that names no node.
pub open spec fn rendering(t: &Tree, k: u32, indent: usize) -> Seq<char>
    decreases t.bound@ - t.rank@[k], 1int, 0int,
{
    if t.has_node(k) && t.rank@[k] < t.bound@ {
        node_line(t.nodes@[k], indent) + rendering_upto(t, k, t.children_of(k).len(), indent.saturating_add(4))
    } else {
        seq![]
    }
}

/// The renderings of the first `i` children of `k`, one after the other.
pub open spec fn rendering_upto(t: &Tree, k: u32, i: nat, indent: usize) -> Seq<char>
    decreases t.bound@ - t.rank@[k], 0int, i,
{
    if i == 0 || i > t.children_of(k).len() {
        seq![]
    } else {
        let c = t.children_of(k)[i - 1];
        if t.rank@[k] < t.rank@[c] && t.rank@[c] < t.bound@ {
            rendering_upto(t, k, (i - 1) as nat, indent) + rendering(t, c, indent)
        } else {
            rendering_upto(t, k, (i - 1) as nat, indent)
        }
    }
}

fn digit_of(d: u32) -> (c: char)
    requires
        d < 10,
    ensures
        c == digit(d as nat),
{
    let table: [char; 10] = ['0', '1', '2', '3', '4', '5', '6', '7', '8', '9'];
    assert(table@ =~= seq!['0', '1', '2', '3', '4', '5', '6', '7', '8', '9']);
    table[d as usize]
}

fn append_decimal(s: &mut String, n: u32)
    ensures
        final(s)@ == old(s)@ + decimal(n as nat),
    decreases n,
{
    if n >= 10 {
        append_decimal(s, n / 10);
    }
    append_char(s, digit_of(n % 10));
    assert(s@ =~= old(s)@ + decimal(n as nat));
}

fn append_spaces(s: &mut String, n: usize)
    ensures
        final(s)@ == old(s)@ + spaces(n as nat),
{
    let mut i: usize = 0;
    while i < n
        invariant
            i <= n,
            s@ == old(s)@ + spaces(i as nat),
        decreases n - i,
    {
        append_char(s, ' ');
        assert(s@ =~= old(s)@ + spaces((i + 1) as nat));
        i += 1;
    }
}

/// Writes a present tag list from the already formatted forms of its labels.
pub fn tag_set_text(forms: &Vec<String>) -> (r: String)
    ensures
        r@ == set_text(forms@.map_values(|f: String| f@)),
{
    let ghost parts = forms@.map_values(|f: String| f@);
    let mut s = String::new();
    s.append("Some({");
    proof {
        reveal_strlit("Some({");
    }
    assert(parts.subrange(0, 0) =~= Seq::<Seq<char>>::empty());
    let mut i: usize = 0;
    while i < forms.len()
        invariant
            i <= forms@.len(),
            parts == forms@.map_values(|f: String| f@),
            s@ == seq!['S', 'o', 'm', 'e', '(', '{'] + comma_list(parts.subrange(0, i as int)),
        decreases forms@.len() - i,
    {
        if i > 0 {
            s.append(", ");
            proof {
                reveal_strlit(", ");
            }
        }
        s.append(forms[i].as_str());
        proof {
            let w = parts.subrange(0, i as int + 1);
            assert(w.drop_last() =~= parts.subrange(0, i as int));
            assert(w.last() == forms@[i as int]@);
            assert(s@ =~= seq!['S', 'o', 'm', 'e', '(', '{'] + comma_list(w));
        }
        i += 1;
    }
    assert(parts.subrange(0, parts.len() as int) =~= parts);
    s.append("})");
    proof {
        reveal_strlit("})");
    }
    assert(s@ =~= set_text(parts));
    s
}

fn append_tags(s: &mut String, o: &Option<Vec<String>>)
    ensures
        final(s)@ == old(s)@ + tags_text(*o),
{
    match o {
        None => {
            s.append("None");
            proof {
                reveal_strlit("None");
            }
            assert(s@ =~= old(s)@ + tags_text(*o));
        },
        Some(v) => {
            let mut forms: Vec<String> = Vec::new();
            let mut i: usize = 0;
            while i < v.len()
                invariant
                    i <= v@.len(),
                    forms@.len() == i,
                    forall|j: int| 0 <= j < i ==> #[trigger] forms@[j]@ == debug_text(v@[j]@),
                decreases v@.len() - i,
            {
                let form = debug_string(v[i].as_str());
                forms.push(form);
                i += 1;
            }
            assert(forms@.map_values(|f: String| f@) =~= debug_forms(v@));
            let text = tag_set_text(&forms);
            s.append(text.as_str());
        },
    }
}

impl Tree {
    fn render_into(&self, s: &mut String, k: u32, indent: usize)
        requires
            self.wf(),
        ensures
            final(s)@ == old(s)@ + rendering(self, k, indent),
        decreases self.bound@ - self.rank@[k],
    {
        match self.nodes.get(&k) {
            None => {
                assert(s@ =~= old(s)@ + rendering(self, k, indent));
            },
            Some(node) => {
                assert(self.has_node(k));
                proof {
                    self.lemma_rank_bounded(k);
                }
                append_spaces(s, indent);
                s.append("- node ");
                proof {
                    reveal_strlit("- node ");
                }
                append_decimal(s, node.id);
                s.append(" (");
                proof {
                    reveal_strlit(" (");
                }
                match node.permission {
                    Permission::Public => {
                        s.append("Public");
                        proof {
                            reveal_strlit("Public");
                        }
                    },
                    Permission::Private => {
                        s.append("Private");
                        proof {
                            reveal_strlit("Private");
                        }
                    },
                }
                s.append("), tags: ");
                proof {
                    reveal_strlit("), tags: ");
                }
                append_tags(s, &node.tags);
                append_char(s, '\n');
                let ghost line_end = s@;
                assert(line_end =~= old(s)@ + node_line(self.nodes@[k], indent));
                let inner = indent.saturating_add(4);
                let kids = &node.children;
                let mut i: usize = 0;
                while i < kids.len()
                    invariant
                        self.wf(),
                        self.has_node(k),
                        self.rank@[k] < self.bound@,
                        kids@ == self.children_of(k),
                        i <= kids@.len(),
                        s@ == line_end + rendering_upto(self, k, i as nat, inner),
                    decreases kids@.len() - i,
                {
                    let c = kids[i];
                    proof {
                        self.lemma_child_rank(k, i as int);
                    }
                    self.render_into(s, c, inner);
                    assert(s@ =~= line_end + rendering_upto(self, k, (i + 1) as nat, inner));
                    i += 1;
                }
                assert(s@ =~= old(s)@ + rendering(self, k, indent));
            },
        }
    }

    /// Renders the subtree of `root`, one line per node, each level indented four
    /// columns deeper than its parent, starting at `indent` columns.
    pub fn print_tree(&self, root: u32, indent: usize) -> (r: String)
        requires
            self.wf(),
        ensures
            r@ == rendering(self, root, indent),
    {
        let mut s = String::new();
        self.render_into(&mut s, root, indent);
        assert(s@ =~= rendering(self, root, indent));
        s
    }
}

} // verus!
