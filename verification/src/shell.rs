use vstd::prelude::*;
use vstd::string::*;
use crate::resolve::{display_path, resolve, spec_display_path, spec_resolve};
use crate::text::{spec_all_space, str_all_space, views_of};

verus! {

/// What a metadata query reported of a path: nothing there, something
/// there that is not a directory, or a directory.
pub enum PathMeta {
    Missing,
    NotDir,
    Dir,
}

/// The shell's state: the command history of this session, the home
/// directory fixed at start, the display form of the working directory,
/// and its absolute form.
pub struct Shell {
    pub history: Vec<String>,
    pub home_dir: String,
    pub current_dir: String,
    pub abs_cwd: String,
}

/// The session history lines with the blank ones dropped, in order.
pub open spec fn keep_nonblank(lines: Seq<Seq<char>>) -> Seq<Seq<char>>
    decreases lines.len(),
{
    if lines.len() == 0 {
        Seq::empty()
    } else if spec_all_space(lines.last()) {
        keep_nonblank(lines.drop_last())
    } else {
        keep_nonblank(lines.drop_last()).push(lines.last())
    }
}

impl Shell {
    /// A fresh shell over the given home and working directory, with the
    /// display path derived from them and an empty session history.
    pub fn new(home_dir: String, abs_cwd: String) -> (r: Shell)
        ensures
            r.home_dir@ == home_dir@,
            r.abs_cwd@ == abs_cwd@,
            r.current_dir@ == spec_display_path(abs_cwd@, home_dir@),
            r.history@.len() == 0,
    {
        let current_dir = display_path(abs_cwd.as_str(), home_dir.as_str());
        Shell { history: Vec::new(), home_dir, current_dir, abs_cwd }
    }

    /// The absolute path a raw argument denotes from this shell's state.
    pub fn resolve_path(&self, raw: &str) -> (r: String)
        ensures
            r@ == spec_resolve(raw@, self.abs_cwd@, self.home_dir@),
    {
        resolve(raw, self.abs_cwd.as_str(), self.home_dir.as_str())
    }

    /// Changes the working directory to what `path` resolves to, provided
    /// the metadata query found a directory there.  On failure nothing in
    /// the shell changes; on success both forms of the working directory
    /// move together.
    pub fn cd(&mut self, path: &str, meta: PathMeta) -> (r: Result<(), String>)
        ensures
            ({
                let target = spec_resolve(path@, old(self).abs_cwd@, old(self).home_dir@);
                match r {
                    Ok(_) => meta is Dir && final(self).abs_cwd@ == target
                        && final(self).current_dir@ == spec_display_path(target, old(self).home_dir@)
                        && final(self).home_dir == old(self).home_dir
                        && final(self).history == old(self).history,
                    Err(m) => !(meta is Dir) && *final(self) == *old(self) && (meta is Missing ==> m@
                        == "ru-shell: cd: "@ + target + ": No such file or directory"@) && (
                    meta is NotDir ==> m@ == "ru-shell: cd: "@ + target + ": Not a directory"@),
                }
            }),
    {
        let target = resolve(path, self.abs_cwd.as_str(), self.home_dir.as_str());
        match meta {
            PathMeta::Dir => {
                let shown = display_path(target.as_str(), self.home_dir.as_str());
                self.current_dir = shown;
                self.abs_cwd = target;
                Ok(())
            },
            PathMeta::Missing => {
                let mut m = String::from_str("ru-shell: cd: ");
                m.append(target.as_str());
                m.append(": No such file or directory");
                Err(m)
            },
            PathMeta::NotDir => {
                let mut m = String::from_str("ru-shell: cd: ");
                m.append(target.as_str());
                m.append(": Not a directory");
                Err(m)
            },
        }
    }

    /// The absolute working directory, as `pwd` prints it.
    pub fn pwd(&self) -> (r: String)
        ensures
            r@ == self.abs_cwd@,
    {
        let mut out = String::new();
        out.append(self.abs_cwd.as_str());
        out
    }

    /// The prompt line: the shell's name and the display path, each inside
    /// its own colour markup, ending in `$ `.
    pub fn get_prompt(&self) -> (r: String)
        ensures
            r@ == "\u{1b}[1;34mru-shell\u{1b}[0m:\u{1b}[1;32m"@ + self.current_dir@
                + "\u{1b}[0m$ "@,
    {
        let mut out = String::from_str("\u{1b}[1;34mru-shell\u{1b}[0m:\u{1b}[1;32m");
        out.append(self.current_dir.as_str());
        out.append("\u{1b}[0m$ ");
        out
    }

    /// Where the history log lives: `.rushistory` under the home directory.
    pub fn history_file_path(&self) -> (r: String)
        ensures
            r@ == self.home_dir@ + "/.rushistory"@,
    {
        let mut out = String::new();
        out.append(self.home_dir.as_str());
        out.append("/.rushistory");
        out
    }

    /// Takes the lines read back from the history log into the session
    /// history, dropping blank ones.
    pub fn load_history(&mut self, lines: Vec<String>)
        ensures
            views_of(final(self).history@) == views_of(old(self).history@) + keep_nonblank(
                views_of(lines@),
            ),
            final(self).home_dir == old(self).home_dir,
            final(self).current_dir == old(self).current_dir,
            final(self).abs_cwd == old(self).abs_cwd,
    {
        let n = lines.len();
        let mut i: usize = 0;
        while i < n
            invariant
                i <= n,
                n == lines@.len(),
                views_of(self.history@) == views_of(old(self).history@) + keep_nonblank(
                    views_of(lines@.subrange(0, i as int)),
                ),
                self.home_dir == old(self).home_dir,
                self.current_dir == old(self).current_dir,
                self.abs_cwd == old(self).abs_cwd,
            decreases n - i,
        {
            let ghost pre = lines@.subrange(0, i as int);
            let ghost h0 = self.history@;
            let blank = str_all_space(lines[i].as_str());
            if !blank {
                let line = lines[i].clone();
                self.history.push(line);
                proof {
                    assert(self.history@ == h0.push(lines@[i as int]));
                    assert(views_of(h0.push(lines@[i as int])) =~= views_of(h0).push(
                        lines@[i as int]@,
                    ));
                }
            }
            proof {
                let cur = lines@.subrange(0, i + 1);
                assert(cur.drop_last() =~= pre);
                assert(views_of(cur).drop_last() =~= views_of(cur.drop_last()));
                assert(views_of(cur).last() == lines@[i as int]@);
                if blank {
                    assert(keep_nonblank(views_of(cur)) =~= keep_nonblank(views_of(pre)));
                } else {
                    assert(keep_nonblank(views_of(cur)) =~= keep_nonblank(views_of(pre)).push(
                        lines@[i as int]@,
                    ));
                    assert(views_of(self.history@) =~= views_of(old(self).history@)
                        + keep_nonblank(views_of(cur)));
                }
            }
            i = i + 1;
        }
        proof {
            assert(lines@.subrange(0, n as int) =~= lines@);
        }
    }

    /// Adds one command to the session history, unless it is blank; the
    /// rest of the shell is untouched either way.
    pub fn add_to_history(&mut self, command: String)
        ensures
            spec_all_space(command@) ==> *final(self) == *old(self),
            !spec_all_space(command@) ==> final(self).history@ == old(self).history@.push(command),
            final(self).home_dir == old(self).home_dir,
            final(self).current_dir == old(self).current_dir,
            final(self).abs_cwd == old(self).abs_cwd,
    {
        if str_all_space(command.as_str()) {
            return ;
        }
        self.history.push(command);
    }

    /// The commands of this session, oldest first.
    pub fn get_history(&self) -> (r: &Vec<String>)
        ensures
            r@ == self.history@,
    {
        &self.history
    }

    /// An error line: prefixed with the shell's name when the failure is
    /// the shell's own, left as given when the text already names the
    /// command.
    pub fn error(&self, msg: &str, show_name: bool) -> (r: String)
        ensures
            show_name ==> r@ == "ru-shell: "@ + msg@,
            !show_name ==> r@ == msg@,
    {
        if show_name {
            let mut out = String::from_str("ru-shell: ");
            out.append(msg);
            out
        } else {
            let mut out = String::new();
            out.append(msg);
            out
        }
    }
}

} // verus!
