//! The todo-list state machine: an ordered list of items, changed only
//! by rebuilding it wholesale from a command.

use vstd::prelude::*;

verus! {

/// A command against the todo list. `Toggle(i)` removes the item at
/// index `i`; the name is kept for the wire format's sake.
#[derive(Debug, PartialEq)]
pub enum DomainCmd {
    Add(String),
    Toggle(usize),
}

/// Mathematical model of a `DomainCmd`.
pub ghost enum DomainCmdView {
    Add(Seq<char>),
    Toggle(int),
}

impl View for DomainCmd {
    type V = DomainCmdView;

    open spec fn view(&self) -> DomainCmdView {
        match self {
            DomainCmd::Add(t) => DomainCmdView::Add(t@),
            DomainCmd::Toggle(i) => DomainCmdView::Toggle(*i as int),
        }
    }
}

/// One todo entry: its text and whether it is done.
#[derive(Debug)]
pub struct TodoItem {
    text: String,
    done: bool,
}

/// Mathematical model of a `TodoItem`.
pub ghost struct TodoItemView {
    pub text: Seq<char>,
    pub done: bool,
}

impl View for TodoItem {
    type V = TodoItemView;

    closed spec fn view(&self) -> TodoItemView {
        TodoItemView { text: self.text@, done: self.done }
    }
}

impl Clone for TodoItem {
    fn clone(&self) -> (r: Self)
        ensures
            r == *self,
    {
        TodoItem { text: self.text.clone(), done: self.done }
    }
}

impl TodoItem {
    /// A fresh, not-yet-done item with the given text.
    pub fn from(str: &str) -> (r: Self)
        ensures
            r@.text == str@,
            r@.done == false,
    {
        Self { text: str.to_owned(), done: false }
    }

    /// The item's text.
    pub fn text(&self) -> (r: &String)
        ensures
            r@ == self@.text,
    {
        &self.text
    }

    /// Whether the item is done.
    pub fn done(&self) -> (r: bool)
        ensures
            r == self@.done,
    {
        self.done
    }
}

/// What one command does to the list: `Add` appends a fresh item,
/// `Toggle` removes the addressed item and is a no-op out of range.
pub open spec fn apply_cmd(items: Seq<TodoItemView>, cmd: DomainCmdView) -> Seq<TodoItemView> {
    match cmd {
        DomainCmdView::Add(t) => items.push(TodoItemView { text: t, done: false }),
        DomainCmdView::Toggle(i) => if 0 <= i < items.len() {
            items.remove(i)
        } else {
            items
        },
    }
}

/// The todo list itself.
pub struct TodoDomain {
    items: Vec<TodoItem>,
}

impl View for TodoDomain {
    type V = Seq<TodoItemView>;

    closed spec fn view(&self) -> Seq<TodoItemView> {
        Seq::new(self.items@.len() as nat, |i: int| self.items@[i]@)
    }
}

/// The characters `true` or `false`, as `Display` writes a `bool`.
pub open spec fn bool_chars(b: bool) -> Seq<char> {
    if b {
        seq!['t', 'r', 'u', 'e']
    } else {
        seq!['f', 'a', 'l', 's', 'e']
    }
}

/// One display row: `[<index>]<TAB>[<done>]<TAB><text>` and a newline.
pub open spec fn render_item_spec(idx: nat, item: TodoItemView) -> Seq<char> {
    seq!['['] + crate::text::dec_digits(idx) + seq![']', '\t', '['] + bool_chars(item.done) + seq![
        ']',
        '\t',
    ] + item.text + seq!['\n']
}

/// The whole list rendered, one row per item in display order.
pub open spec fn render_spec(items: Seq<TodoItemView>) -> Seq<char>
    decreases items.len(),
{
    if items.len() == 0 {
        Seq::empty()
    } else {
        render_spec(items.drop_last()) + render_item_spec(
            (items.len() - 1) as nat,
            items.last(),
        )
    }
}

impl TodoDomain {
    /// The initial state: an empty list.
    pub fn new() -> (r: Self)
        ensures
            r@ == Seq::<TodoItemView>::empty(),
    {
        let r = Self { items: Vec::new() };
        proof {
            assert(r@ =~= Seq::<TodoItemView>::empty());
        }
        r
    }

    /// An independent copy of the list.
    pub fn _copy(&self) -> (r: TodoDomain)
        ensures
            r@ == self@,
    {
        let mut v: Vec<TodoItem> = Vec::new();
        let n = self.items.len();
        let mut idx: usize = 0;
        while idx < n
            invariant
                idx <= n,
                n == self.items@.len(),
                v@ == self.items@.subrange(0, idx as int),
            decreases n - idx,
        {
            v.push(self.items[idx].clone());
            proof {
                assert(v@ =~= self.items@.subrange(0, idx as int + 1));
            }
            idx = idx + 1;
        }
        proof {
            assert(self.items@.subrange(0, n as int) =~= self.items@);
        }
        let r = TodoDomain { items: v };
        proof {
            assert(r@ =~= self@);
        }
        r
    }

    /// How many items the list holds.
    pub fn len(&self) -> (r: usize)
        ensures
            r == self@.len(),
    {
        self.items.len()
    }

    /// The item at index `i`.
    pub fn item(&self, i: usize) -> (r: &TodoItem)
        requires
            i < self@.len(),
        ensures
            r@ == self@[i as int],
    {
        &self.items[i]
    }

    /// The list as text, one `[<index>]<TAB>[<done>]<TAB><text>` row per
    /// item.
    pub fn render(&self) -> (r: String)
        ensures
            r@ == render_spec(self@),
    {
        let ghost dv = self@;
        let mut out = String::new();
        proof {
            reveal_strlit("[");
            reveal_strlit("]\t[");
            reveal_strlit("]\t");
            reveal_strlit("\n");
            reveal_strlit("true");
            reveal_strlit("false");
            assert(dv.subrange(0, 0) =~= Seq::<TodoItemView>::empty());
        }
        let n = self.items.len();
        let mut i: usize = 0;
        while i < n
            invariant
                i <= n,
                n == self.items@.len(),
                dv == self@,
                dv.len() == n,
                out@ == render_spec(dv.subrange(0, i as int)),
                "["@ =~= seq!['['],
                "]\t["@ =~= seq![']', '\t', '['],
                "]\t"@ =~= seq![']', '\t'],
                "\n"@ =~= seq!['\n'],
                "true"@ =~= seq!['t', 'r', 'u', 'e'],
                "false"@ =~= seq!['f', 'a', 'l', 's', 'e'],
            decreases n - i,
        {
            out.append("[");
            let idx_str = crate::text::to_dec_string(i);
            out.append(idx_str.as_str());
            out.append("]\t[");
            if self.items[i].done {
                out.append("true");
            } else {
                out.append("false");
            }
            out.append("]\t");
            out.append(self.items[i].text.as_str());
            out.append("\n");
            proof {
                assert(dv.subrange(0, i as int + 1).drop_last() =~= dv.subrange(0, i as int));
                assert(dv.subrange(0, i as int + 1).last() == dv[i as int]);
                assert(dv[i as int] == self.items@[i as int]@);
                assert(out@ =~= render_spec(dv.subrange(0, i as int)) + render_item_spec(
                    i as nat,
                    dv[i as int],
                ));
            }
            i = i + 1;
        }
        proof {
            assert(dv.subrange(0, n as int) =~= dv);
        }
        out
    }

    /// Apply one command, yielding the next state; the old state is
    /// consumed.
    pub fn command(self, cmd: DomainCmd) -> (r: TodoDomain)
        ensures
            r@ == apply_cmd(self@, cmd@),
    {
        let ghost dv = self@;
        let ghost cv = cmd@;
        let mut v: Vec<TodoItem> = Vec::new();
        match cmd {
            DomainCmd::Add(t) => {
                let n = self.items.len();
                let mut idx: usize = 0;
                while idx < n
                    invariant
                        idx <= n,
                        n == self.items@.len(),
                        v@ == self.items@.subrange(0, idx as int),
                    decreases n - idx,
                {
                    v.push(self.items[idx].clone());
                    proof {
                        assert(v@ =~= self.items@.subrange(0, idx as int + 1));
                    }
                    idx = idx + 1;
                }
                proof {
                    assert(self.items@.subrange(0, n as int) =~= self.items@);
                }
                v.push(TodoItem::from(t.as_str()));
                let r = TodoDomain { items: v };
                proof {
                    assert(r@ =~= apply_cmd(dv, cv));
                }
                r
            },
            DomainCmd::Toggle(index) => {
                let n = self.items.len();
                let mut idx: usize = 0;
                while idx < n
                    invariant
                        idx <= n,
                        n == self.items@.len(),
                        idx <= index ==> v@ == self.items@.subrange(0, idx as int),
                        idx > index ==> v@ == self.items@.subrange(0, index as int)
                            + self.items@.subrange(index as int + 1, idx as int),
                    decreases n - idx,
                {
                    if index != idx {
                        v.push(self.items[idx].clone());
                        proof {
                            if idx < index {
                                assert(v@ =~= self.items@.subrange(0, idx as int + 1));
                            } else {
                                assert(v@ =~= self.items@.subrange(0, index as int)
                                    + self.items@.subrange(index as int + 1, idx as int + 1));
                            }
                        }
                    } else {
                        proof {
                            assert(v@ =~= self.items@.subrange(0, index as int)
                                + self.items@.subrange(index as int + 1, idx as int + 1));
                        }
                    }
                    idx = idx + 1;
                }
                let r = TodoDomain { items: v };
                proof {
                    if (index as int) < dv.len() {
                        assert(r@ =~= dv.remove(index as int));
                    } else {
                        assert(self.items@.subrange(0, n as int) =~= self.items@);
                        assert(r@ =~= dv);
                    }
                }
                r
            },
        }
    }
}

} // verus!
