//! The buffer the sidebar shows a diff in: one scratch buffer, named for what it shows,
//! in the focused view.

use vstd::prelude::*;
use vstd::string::*;

use crate::text::{self, copy_words};

verus! {

/// What the buffer is asked to show: a commit's patch narrowed to some paths, and the name
/// the buffer goes by while it shows it.
#[derive(PartialEq, Eq, Debug)]
pub struct DiffTarget {
    pub hash: String,
    pub pathspecs: Vec<String>,
    pub name: String,
}

/// What a target holds.
pub struct DiffTargetView {
    pub hash: Seq<char>,
    pub pathspecs: Seq<Seq<char>>,
    pub name: Seq<char>,
}

impl View for DiffTarget {
    type V = DiffTargetView;

    open spec fn view(&self) -> DiffTargetView {
        DiffTargetView {
            hash: self.hash@,
            pathspecs: text::views(self.pathspecs@),
            name: self.name@,
        }
    }
}

impl Clone for DiffTarget {
    fn clone(&self) -> (copy: Self)
        ensures
            copy@ == self@,
    {
        DiffTarget {
            hash: self.hash.clone(),
            pathspecs: copy_words(&self.pathspecs),
            name: self.name.clone(),
        }
    }
}

/// The target, if there is one.
pub open spec fn target_view(target: Option<DiffTarget>) -> Option<DiffTargetView> {
    match target {
        Some(target) => Some(target@),
        None => None,
    }
}

/// Whether two lists of texts are the same.
fn same_words(a: &Vec<String>, b: &Vec<String>) -> (yes: bool)
    ensures
        yes == (text::views(a@) == text::views(b@)),
{
    let ghost x = text::views(a@);
    let ghost y = text::views(b@);
    assert(x.len() == a.len() && y.len() == b.len());
    if a.len() != b.len() {
        return false;
    }
    for i in 0..a.len()
        invariant
            a.len() == b.len(),
            x == text::views(a@),
            y == text::views(b@),
            forall|j: int| 0 <= j < i ==> x[j] == y[j],
    {
        assert(x[i as int] == a@[i as int]@ && y[i as int] == b@[i as int]@);
        if !text::same(a[i].as_str(), b[i].as_str()) {
            return false;
        }
    }
    assert(x =~= y);
    true
}

impl DiffTarget {
    /// Whether two targets are the same.
    pub fn same(&self, other: &DiffTarget) -> (yes: bool)
        ensures
            yes == (self@ == other@),
    {
        text::same(self.hash.as_str(), other.hash.as_str()) && same_words(
            &self.pathspecs,
            &other.pathspecs,
        ) && text::same(self.name.as_str(), other.name.as_str())
    }
}

/// A target, and whether the patch is asked with the whole of each file around it.
pub struct Request {
    pub target: DiffTarget,
    pub full_context: bool,
}

/// What a request holds.
pub open spec fn request_view(request: Option<Request>) -> Option<(DiffTargetView, bool)> {
    match request {
        Some(request) => Some((request.target@, request.full_context)),
        None => None,
    }
}

pub struct DiffView {
    pub root: String,
    /// The buffer, reused for as long as it lives: an untouched scratch buffer is dropped as
    /// soon as a view leaves it, and then it is made again.
    pub doc: Option<u64>,
    /// What was last asked for, so the same target is not asked twice, and an answer to
    /// something asked before the cursor moved on is dropped.
    pub asked: Option<Request>,
    pub full_context: bool,
}

/// What an answer to a request comes to: nothing when something else was asked for since.
pub enum Landing {
    Dropped,
    Show(String),
    Fault(String),
}

/// What changing the context comes to.
pub enum Toggle {
    Refused(String),
    Nothing,
    Ask(Request),
}

/// How a patch is shown: in the buffer there is or in a new one, whether the view is to be
/// switched to it, the line the cursor goes to and the first line on screen.
pub struct Showing {
    pub doc: Option<u64>,
    pub switch: bool,
    pub cursor: Option<usize>,
    pub top: usize,
}

impl DiffView {
    /// Whether this is the view of a project no patch was shown of yet.
    pub open spec fn fresh(self, root: Seq<char>) -> bool {
        self.root@ == root && self.doc is None && self.asked is None && !self.full_context
    }

    pub fn new(root: String) -> (view: Self)
        ensures
            view.fresh(root@),
    {
        DiffView { root, doc: None, asked: None, full_context: false }
    }

    /// Asks for the target's patch, unless it is the one already asked for.
    pub fn ask(&mut self, target: DiffTarget) -> (request: Option<Request>)
        ensures
            request_view(final(self).asked) == Some((target@, old(self).full_context)),
            match request {
                Some(request) => {
                    &&& request_view(old(self).asked) != Some((target@, old(self).full_context))
                    &&& request_view(Some(request)) == Some((target@, old(self).full_context))
                },
                None => request_view(old(self).asked) == Some((target@, old(self).full_context)),
            },
            *final(self) == (DiffView { asked: final(self).asked, ..*old(self) }),
    {
        if let Some(asked) = &self.asked {
            if asked.target.same(&target) && asked.full_context == self.full_context {
                return None;
            }
        }
        let copy = target.clone();
        self.asked = Some(Request { target, full_context: self.full_context });
        Some(Request { target: copy, full_context: self.full_context })
    }

    pub fn full_context(&self) -> (full: bool)
        ensures
            full == self.full_context,
    {
        self.full_context
    }

    /// Changes how much of each file is shown around its changes, when the buffer in focus is
    /// the diff's and holds one.
    pub fn toggle_context(&mut self, focused: u64, has_review: bool) -> (turn: Toggle)
        ensures
            match turn {
                Toggle::Refused(why) => {
                    &&& !(has_review && old(self).doc == Some(focused))
                    &&& why@ == "Open a commit diff to change its context"@
                    &&& *final(self) == *old(self)
                },
                Toggle::Nothing => {
                    &&& has_review && old(self).doc == Some(focused)
                    &&& old(self).asked is None
                    &&& *final(self) == *old(self)
                },
                Toggle::Ask(request) => {
                    &&& has_review && old(self).doc == Some(focused)
                    &&& old(self).asked matches Some(asked) && request.target@ == asked.target@
                    &&& request.full_context == !old(self).full_context
                    &&& request_view(final(self).asked) == request_view(Some(request))
                    &&& *final(self) == (DiffView {
                        asked: final(self).asked,
                        full_context: !old(self).full_context,
                        ..*old(self)
                    })
                },
            },
    {
        let ours = match self.doc {
            Some(doc) => doc == focused,
            None => false,
        };
        if !(has_review && ours) {
            return Toggle::Refused("Open a commit diff to change its context".to_owned());
        }
        let target = match &self.asked {
            Some(asked) => asked.target.clone(),
            None => return Toggle::Nothing,
        };
        self.full_context = !self.full_context;
        let copy = target.clone();
        self.asked = Some(Request { target, full_context: self.full_context });
        Toggle::Ask(Request { target: copy, full_context: self.full_context })
    }

    /// Forgets what was asked, so the next ask goes to git even for the same target: the
    /// buffer may have been left for another one meanwhile.
    pub fn forget(&mut self)
        ensures
            *final(self) == (DiffView { asked: None, ..*old(self) }),
    {
        self.asked = None;
    }

    /// What the answer to a request comes to: shown when it is still the one wanted.
    pub fn landed(&self, request: &Request, error: Option<String>) -> (landing: Landing)
        ensures
            match landing {
                Landing::Dropped => request_view(self.asked) != request_view(Some(*request)),
                Landing::Show(name) => {
                    &&& request_view(self.asked) == request_view(Some(*request))
                    &&& error is None
                    &&& name@ == request.target.name@
                },
                Landing::Fault(why) => {
                    &&& request_view(self.asked) == request_view(Some(*request))
                    &&& error matches Some(err) && why@ == err@
                },
            },
    {
        let wanted = match &self.asked {
            Some(asked) => asked.target.same(&request.target) && asked.full_context
                == request.full_context,
            None => false,
        };
        if !wanted {
            return Landing::Dropped;
        }
        match error {
            None => Landing::Show(request.target.name.clone()),
            Some(why) => Landing::Fault(why),
        }
    }

    /// How a patch is shown: in the buffer it was shown in last while that one is open, the
    /// line it is wanted at a little below the top.
    pub fn show(&self, open: &Vec<u64>, focused: u64, line: Option<usize>) -> (showing: Showing)
        ensures
            showing.doc == (match self.doc {
                Some(doc) if open@.contains(doc) => Some(doc),
                _ => None,
            }),
            showing.switch == (showing.doc is Some && showing.doc != Some(focused)),
            showing.cursor == line,
            showing.top == (match line {
                Some(line) if line >= 3 => line - 3,
                _ => 0,
            }),
    {
        let mut doc: Option<u64> = None;
        if let Some(id) = self.doc {
            for i in 0..open.len()
                invariant
                    self.doc == Some(id),
                    doc is Some <==> (exists|j: int| 0 <= j < i && #[trigger] open@[j] == id),
                    doc is Some ==> doc == Some(id) && open@.contains(id),
            {
                if open[i] == id {
                    assert(open@[i as int] == id);
                    doc = Some(id);
                }
            }
        }
        let switch = match doc {
            Some(doc) => doc != focused,
            None => false,
        };
        let top = match line {
            Some(line) => if line >= 3 {
                line - 3
            } else {
                0
            },
            None => 0,
        };
        Showing { doc, switch, cursor: line, top }
    }

    /// The buffer the patch was put in.
    pub fn shown_in(&mut self, doc: u64)
        ensures
            *final(self) == (DiffView { doc: Some(doc), ..*old(self) }),
    {
        self.doc = Some(doc);
    }
}

} // verus!
