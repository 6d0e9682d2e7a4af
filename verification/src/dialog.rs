//! Choosing several folders one dialog at a time.
//!
//! The dialog is shown again and again until it is cancelled; each folder
//! picked is added unless it was picked before. Showing the dialog is left to
//! the caller, which hands each answer to a [`FolderSelection`].
use vstd::prelude::*;
use crate::text::{decimal, decimal_string};

verus! {

broadcast use vstd::string::group_string_axioms;

/// The folders chosen so far, each once, in the order they were picked.
pub struct FolderSelection {
    folders: Vec<String>,
}

/// The views of a sequence of texts.
pub open spec fn text_views(v: Seq<String>) -> Seq<Seq<char>> {
    v.map_values(|s: String| s@)
}

impl View for FolderSelection {
    type V = Seq<Seq<char>>;

    closed spec fn view(&self) -> Seq<Seq<char>> {
        text_views(self.folders@)
    }
}

/// The title of the dialog when `count` folders have been chosen.
pub open spec fn prompt_of(title: Seq<char>, count: nat) -> Seq<char> {
    if count == 0 {
        title
    } else {
        title + " (已选 "@ + decimal(count) + " 个，取消结束选择)"@
    }
}

impl FolderSelection {
    /// No folder is there twice.
    #[verifier::type_invariant]
    closed spec fn no_repeats(&self) -> bool {
        text_views(self.folders@).no_duplicates()
    }

    /// No folder chosen yet.
    pub fn new() -> (r: Self)
        ensures
            r@ == Seq::<Seq<char>>::empty(),
    {
        FolderSelection { folders: Vec::new() }
    }

    /// The title to show the dialog with: `title`, followed by the number of
    /// folders chosen so far once there are any.
    pub fn prompt(&self, title: &str) -> (r: String)
        ensures
            r@ == prompt_of(title@, self@.len()),
    {
        let n = self.folders.len();
        if n == 0 {
            return title.to_string();
        }
        let mut out = title.to_string();
        out.append(" (已选 ");
        let count = decimal_string(n as u64);
        out.append(count.as_str());
        out.append(" 个，取消结束选择)");
        out
    }

    /// Whether `path` has been chosen already.
    pub fn contains(&self, path: &String) -> (r: bool)
        ensures
            r == self@.contains(path@),
    {
        let mut i: usize = 0;
        while i < self.folders.len()
            invariant
                i <= self@.len(),
                self@ == text_views(self.folders@),
                forall|k: int| 0 <= k < i ==> self@[k] != path@,
            decreases self@.len() - i,
        {
            if self.folders[i] == *path {
                assert(self@[i as int] == path@);
                return true;
            }
            i = i + 1;
        }
        false
    }

    /// Adds the folder `path` picked in the dialog, unless it was chosen
    /// before; tells whether it was added.
    pub fn add(&mut self, path: String) -> (added: bool)
        ensures
            added == !old(self)@.contains(path@),
            added ==> final(self)@ == old(self)@.push(path@),
            !added ==> final(self)@ == old(self)@,
            final(self)@.no_duplicates(),
    {
        proof {
            use_type_invariant(&*self);
        }
        if self.contains(&path) {
            proof {
                use_type_invariant(&*self);
            }
            return false;
        }
        let ghost p = path@;
        let mut folders: Vec<String> = Vec::new();
        std::mem::swap(&mut folders, &mut self.folders);
        folders.push(path);
        proof {
            assert(text_views(folders@) =~= old(self)@.push(p));
        }
        self.folders = folders;
        true
    }

    /// The folders chosen, once the dialog has been cancelled; `None` when no
    /// folder was chosen at all.
    pub fn finish(self) -> (r: Option<Vec<String>>)
        ensures
            self@.len() == 0 ==> r is None,
            self@.len() > 0 ==> (r matches Some(v) && text_views(v@) == self@),
            r matches Some(v) ==> text_views(v@).no_duplicates(),
    {
        proof {
            use_type_invariant(&self);
        }
        if self.folders.len() == 0 {
            None
        } else {
            Some(self.folders)
        }
    }
}

} // verus!
