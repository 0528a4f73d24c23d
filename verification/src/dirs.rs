//! Directory sizes from a console log.
//!
//! The log lists `cd` and `ls` commands with their output. Replaying
//! it yields a flat list of directories, each holding its file sizes;
//! a directory's size sums the files of every directory whose path it
//! prefixes. One query totals the small directories, the other finds
//! the smallest directory whose removal frees enough space.
use vstd::prelude::*;
use vstd::slice::slice_subrange;
use vstd::slice::slice_to_vec;
use vstd::string::StringSliceAdditionalSpecFns;

use crate::text::all_digits;
use crate::text::bytes_eq;
use crate::text::dec_value;
use crate::text::find_byte;
use crate::text::find_byte_from;
use crate::text::lemma_find_byte_bounds;
use crate::text::parse_u32;
use crate::text::spec_lines;
use crate::text::split_lines;
use crate::text::views_of;

verus! {

/// A directory: its path, the paths of its subdirectories, and the
/// sizes of its files.
pub struct DirTree {
    pub name: Vec<u8>,
    pub directories: Vec<Vec<u8>>,
    pub files: Vec<u32>,
}

/// The ghost image of a directory: path, subdirectory paths, file
/// sizes.
pub open spec fn lift_dir(d: DirTree) -> (Seq<u8>, Seq<Seq<u8>>, Seq<u32>) {
    (d.name@, views_of(d.directories@), d.files@)
}

/// The ghost image of a directory list.
pub open spec fn lift_dirs(ds: Seq<DirTree>) -> Seq<(Seq<u8>, Seq<Seq<u8>>, Seq<u32>)> {
    ds.map_values(|d: DirTree| lift_dir(d))
}

/// `p` is a prefix of `s`.
pub open spec fn is_prefix(s: Seq<u8>, p: Seq<u8>) -> bool {
    p.len() <= s.len() && s.take(p.len() as int) == p
}

/// Sum of a file size list.
pub open spec fn files_sum(fs: Seq<u32>) -> int
    decreases fs.len(),
{
    if fs.len() == 0 {
        0
    } else {
        fs[0] + files_sum(fs.skip(1))
    }
}

pub proof fn lemma_files_sum_nonneg(fs: Seq<u32>)
    ensures
        files_sum(fs) >= 0,
    decreases fs.len(),
{
    if fs.len() > 0 {
        lemma_files_sum_nonneg(fs.skip(1));
    }
}

/// Size of the directory called `name`: the files of every directory
/// whose path begins with `name`, summed from index `i` on.
pub open spec fn dir_size(
    ms: Seq<(Seq<u8>, Seq<Seq<u8>>, Seq<u32>)>,
    name: Seq<u8>,
    i: int,
) -> int
    decreases ms.len() - i,
{
    if i < 0 || i >= ms.len() {
        0
    } else {
        (if is_prefix(ms[i].0, name) {
            files_sum(ms[i].2)
        } else {
            0int
        }) + dir_size(ms, name, i + 1)
    }
}

pub proof fn lemma_dir_size_nonneg(ms: Seq<(Seq<u8>, Seq<Seq<u8>>, Seq<u32>)>, name: Seq<u8>, i: int)
    ensures
        dir_size(ms, name, i) >= 0,
    decreases ms.len() - i,
{
    if 0 <= i && i < ms.len() {
        lemma_dir_size_nonneg(ms, name, i + 1);
        lemma_files_sum_nonneg(ms[i].2);
    }
}

impl DirTree {
    /// Sum of this directory's own files.
    pub fn file_size(&self) -> (r: u32)
        requires
            files_sum(self.files@) <= u32::MAX,
        ensures
            r == files_sum(self.files@),
    {
        let n = self.files.len();
        let mut sum: u32 = 0;
        let mut i: usize = 0;
        proof {
            assert(self.files@.skip(0) =~= self.files@);
        }
        while i < n
            invariant
                0 <= i <= n,
                n == self.files@.len(),
                files_sum(self.files@) <= u32::MAX,
                sum + files_sum(self.files@.skip(i as int)) == files_sum(self.files@),
            decreases n - i,
        {
            proof {
                assert(self.files@.skip(i as int)[0] == self.files@[i as int]);
                assert(self.files@.skip(i as int).skip(1) =~= self.files@.skip(i + 1));
                lemma_files_sum_nonneg(self.files@.skip(i + 1));
            }
            sum = sum + self.files[i];
            i += 1;
        }
        proof {
            assert(self.files@.skip(n as int) =~= Seq::<u32>::empty());
        }
        sum
    }

    /// Size of this directory: the files of every directory in `dirs`
    /// whose path begins with this one's.
    pub fn size(&self, dirs: &[DirTree]) -> (r: u32)
        requires
            dir_size(lift_dirs(dirs@), self.name@, 0) <= u32::MAX,
        ensures
            r == dir_size(lift_dirs(dirs@), self.name@, 0),
    {
        let ghost ms = lift_dirs(dirs@);
        let ghost name = self.name@;
        let n = dirs.len();
        let mut sum: u32 = 0;
        let mut i: usize = 0;
        while i < n
            invariant
                0 <= i <= n,
                n == ms.len(),
                ms == lift_dirs(dirs@),
                n == dirs@.len(),
                name == self.name@,
                dir_size(ms, name, 0) <= u32::MAX,
                sum + dir_size(ms, name, i as int) == dir_size(ms, name, 0),
            decreases n - i,
        {
            let d = &dirs[i];
            proof {
                assert(ms[i as int] == lift_dir(dirs@[i as int]));
                lemma_dir_size_nonneg(ms, name, i + 1);
                lemma_files_sum_nonneg(d.files@);
            }
            let pl = self.name.len();
            let matched = if pl <= d.name.len() {
                let head = slice_subrange(d.name.as_slice(), 0, pl);
                proof {
                    assert(head@ =~= d.name@.take(pl as int));
                }
                bytes_eq(head, self.name.as_slice())
            } else {
                false
            };
            proof {
                assert(matched == is_prefix(ms[i as int].0, name));
            }
            if matched {
                let fs = d.file_size();
                sum = sum + fs;
            }
            i += 1;
        }
        proof {
            assert(dir_size(ms, name, n as int) == 0);
        }
        sum
    }

    /// The path of a child of this directory: the parent's path, a
    /// separating slash unless the parent is the root, then the
    /// child's name.
    pub open spec fn spec_sub_name(parent: Seq<u8>, child: Seq<u8>) -> Seq<u8> {
        if parent != seq![47u8] {
            parent + seq![47u8] + child
        } else {
            parent + child
        }
    }

    /// Registers and returns a child directory of this one.
    pub fn new_sub_directory(&mut self, name: Vec<u8>) -> (r: DirTree)
        ensures
            final(self).name@ == old(self).name@,
            final(self).files@ == old(self).files@,
            views_of(final(self).directories@) == views_of(old(self).directories@).push(
                Self::spec_sub_name(old(self).name@, name@),
            ),
            r.name@ == Self::spec_sub_name(old(self).name@, name@),
            views_of(r.directories@) == Seq::<Seq<u8>>::empty(),
            r.files@ == Seq::<u32>::empty(),
    {
        let mut dir_name = slice_to_vec(self.name.as_slice());
        if !(self.name.len() == 1 && self.name[0] == 47) {
            dir_name.push(47);
        }
        let mut k: usize = 0;
        let cn = name.len();
        let ghost base = dir_name@;
        while k < cn
            invariant
                0 <= k <= cn,
                cn == name@.len(),
                dir_name@ == base + name@.take(k as int),
            decreases cn - k,
        {
            dir_name.push(name[k]);
            proof {
                assert(base + name@.take(k + 1) =~= (base + name@.take(k as int)).push(
                    name@[k as int],
                ));
            }
            k += 1;
        }
        proof {
            assert(name@.take(cn as int) =~= name@);
            if old(self).name@.len() == 1 && old(self).name@[0] == 47 {
                assert(old(self).name@ =~= seq![47u8]);
                assert(base =~= old(self).name@);
                assert(dir_name@ =~= old(self).name@ + name@);
            } else {
                assert(old(self).name@ != seq![47u8]) by {
                    if old(self).name@ == seq![47u8] {
                        assert(old(self).name@.len() == 1 && old(self).name@[0] == 47);
                    }
                }
                assert(base =~= old(self).name@ + seq![47u8]);
                assert(dir_name@ =~= old(self).name@ + seq![47u8] + name@);
            }
            assert(dir_name@ == Self::spec_sub_name(old(self).name@, name@));
        }
        let child_name = slice_to_vec(dir_name.as_slice());
        self.directories.push(dir_name);
        proof {
            assert(views_of(self.directories@) =~= views_of(old(self).directories@).push(
                Self::spec_sub_name(old(self).name@, name@),
            ));
        }
        let r = DirTree { name: child_name, directories: Vec::new(), files: Vec::new() };
        proof {
            assert(views_of(r.directories@) =~= Seq::<Seq<u8>>::empty());
        }
        r
    }

    /// Records one file of the given size.
    pub fn add_file(&mut self, size: u32)
        ensures
            final(self).name@ == old(self).name@,
            final(self).directories@ == old(self).directories@,
            final(self).files@ == old(self).files@.push(size),
    {
        self.files.push(size);
    }
}

/// A directory image: path, subdirectory paths, file sizes.
pub open spec fn dm(
    name: Seq<u8>,
    subs: Seq<Seq<u8>>,
    files: Seq<u32>,
) -> (Seq<u8>, Seq<Seq<u8>>, Seq<u32>) {
    (name, subs, files)
}

/// First directory called `name`, from index `i`; the length when
/// there is none.
pub open spec fn find_dir(
    ms: Seq<(Seq<u8>, Seq<Seq<u8>>, Seq<u32>)>,
    name: Seq<u8>,
    i: int,
) -> int
    decreases ms.len() - i,
{
    if i < 0 || i >= ms.len() {
        ms.len() as int
    } else if ms[i].0 == name {
        i
    } else {
        find_dir(ms, name, i + 1)
    }
}

pub proof fn lemma_find_dir(ms: Seq<(Seq<u8>, Seq<Seq<u8>>, Seq<u32>)>, name: Seq<u8>, i: int)
    requires
        0 <= i <= ms.len(),
    ensures
        i <= find_dir(ms, name, i) <= ms.len(),
        find_dir(ms, name, i) < ms.len() ==> ms[find_dir(ms, name, i)].0 == name,
        forall|k: int| i <= k < find_dir(ms, name, i) ==> ms[k].0 != name,
    decreases ms.len() - i,
{
    if i < ms.len() && ms[i].0 != name {
        lemma_find_dir(ms, name, i + 1);
    }
}

/// Index just past the last slash among the first `i` bytes; -1 when
/// there is none.
pub open spec fn last_slash(s: Seq<u8>, i: int) -> int
    decreases i,
{
    if i <= 0 {
        -1
    } else if s[i - 1] == 47 {
        i - 1
    } else {
        last_slash(s, i - 1)
    }
}

/// The line begins with "$ cd".
pub open spec fn is_cd(l: Seq<u8>) -> bool {
    l.len() >= 4 && l[0] == 36 && l[1] == 32 && l[2] == 99 && l[3] == 100
}

/// The line begins with "$ ls".
pub open spec fn is_ls(l: Seq<u8>) -> bool {
    l.len() >= 4 && l[0] == 36 && l[1] == 32 && l[2] == 108 && l[3] == 115
}

/// The line begins with "dir".
pub open spec fn is_dir_line(l: Seq<u8>) -> bool {
    l.len() >= 3 && l[0] == 100 && l[1] == 105 && l[2] == 114
}

/// The state of the replay: the directories seen and the working
/// directory's path.
pub open spec fn log_step(
    st: (Seq<(Seq<u8>, Seq<Seq<u8>>, Seq<u32>)>, Seq<u8>),
    l: Seq<u8>,
) -> Option<(Seq<(Seq<u8>, Seq<Seq<u8>>, Seq<u32>)>, Seq<u8>)> {
    let (ms, cwd) = st;
    if is_cd(l) {
        if l.len() < 5 {
            None
        } else {
            let cd = l.skip(5);
            if cd == seq![46u8, 46u8] {
                let sl = last_slash(cwd, cwd.len() as int);
                if sl < 0 {
                    None
                } else {
                    Some((ms, cwd.take(if 1 >= sl { 1int } else { sl })))
                }
            } else if cd == seq![47u8] {
                Some((ms.push(dm(seq![47u8], Seq::empty(), Seq::empty())), seq![47u8]))
            } else {
                let idx = find_dir(ms, cwd, 0);
                if idx == ms.len() {
                    None
                } else {
                    let parent = ms[idx];
                    let nm = DirTree::spec_sub_name(parent.0, cd);
                    Some(
                        (
                            ms.update(idx, dm(parent.0, parent.1.push(nm), parent.2)).push(
                                dm(nm, Seq::empty(), Seq::empty()),
                            ),
                            nm,
                        ),
                    )
                }
            }
        }
    } else if is_ls(l) || is_dir_line(l) {
        Some(st)
    } else {
        let sp = find_byte_from(l, 0, 32);
        let tok = l.take(sp);
        if !(tok.len() > 0 && all_digits(tok) && dec_value(tok) <= u32::MAX) {
            None
        } else {
            let idx = find_dir(ms, cwd, 0);
            if idx == ms.len() {
                None
            } else {
                let parent = ms[idx];
                Some(
                    (
                        ms.update(
                            idx,
                            dm(parent.0, parent.1, parent.2.push(dec_value(tok) as u32)),
                        ),
                        cwd,
                    ),
                )
            }
        }
    }
}

/// Replays the log lines over a state.
pub open spec fn run_log(
    st: (Seq<(Seq<u8>, Seq<Seq<u8>>, Seq<u32>)>, Seq<u8>),
    ls: Seq<Seq<u8>>,
) -> Option<(Seq<(Seq<u8>, Seq<Seq<u8>>, Seq<u32>)>, Seq<u8>)>
    decreases ls.len(),
{
    if ls.len() == 0 {
        Some(st)
    } else {
        match log_step(st, ls[0]) {
            None => None,
            Some(st2) => run_log(st2, ls.skip(1)),
        }
    }
}

/// The directories a log spells, when the replay gets through.
pub open spec fn parsed_log(s: Seq<u8>) -> Option<Seq<(Seq<u8>, Seq<Seq<u8>>, Seq<u32>)>> {
    match run_log((Seq::empty(), Seq::empty()), spec_lines(s)) {
        None => None,
        Some(st) => Some(st.0),
    }
}

/// Replays the console log into a directory list.
#[verifier::loop_isolation(false)]
pub fn parse_console_log(input: &str) -> (r: Vec<DirTree>)
    requires
        parsed_log(input.spec_bytes()) is Some,
    ensures
        Some(lift_dirs(r@)) == parsed_log(input.spec_bytes()),
{
    let ghost s = input.spec_bytes();
    let ghost lsq = spec_lines(s);
    let lines = split_lines(input.as_bytes());
    let n = lines.len();
    let mut dirs: Vec<DirTree> = Vec::new();
    let mut cwd: Vec<u8> = Vec::new();
    let mut i: usize = 0;
    proof {
        assert(lsq.skip(0) =~= lsq);
        assert(lift_dirs(dirs@) =~= Seq::<(Seq<u8>, Seq<Seq<u8>>, Seq<u32>)>::empty());
        assert(cwd@ =~= Seq::<u8>::empty());
    }
    while i < n
        invariant
            0 <= i <= n,
            n == lsq.len(),
            views_of(lines@) == lsq,
            n == lines@.len(),
            run_log((lift_dirs(dirs@), cwd@), lsq.skip(i as int)) == run_log(
                (Seq::empty(), Seq::empty()),
                lsq,
            ),
        decreases n - i,
    {
        proof {
            assert(lsq[i as int] == lines@[i as int]@);
            assert(lsq.skip(i as int)[0] == lsq[i as int]);
            assert(lsq.skip(i as int).skip(1) =~= lsq.skip(i + 1));
        }
        let line = &lines[i];
        let ghost l = lsq[i as int];
        let ghost st = (lift_dirs(dirs@), cwd@);
        proof {
            if log_step(st, l) is None {
                assert(run_log(st, lsq.skip(i as int)) is None);
                assert(false);
            }
        }
        if line.len() >= 4 && line[0] == 36 && line[1] == 32 && line[2] == 99 && line[3] == 100 {
            if line.len() < 5 {
                return vstd::pervasive::unreached();
            }
            let cd = slice_subrange(line.as_slice(), 5, line.len());
            proof {
                assert(cd@ =~= l.skip(5));
            }
            if cd.len() == 2 && cd[0] == 46 && cd[1] == 46 {
                proof {
                    assert(cd@ =~= seq![46u8, 46u8]);
                }
                let mut sl: usize = cwd.len();
                let mut found = false;
                while sl > 0 && !found
                    invariant
                        0 <= sl <= cwd@.len(),
                        !found ==> last_slash(cwd@, cwd@.len() as int) == last_slash(
                            cwd@,
                            sl as int,
                        ),
                        found ==> last_slash(cwd@, cwd@.len() as int) == sl,
                    decreases sl,
                {
                    if cwd[sl - 1] == 47 {
                        proof {
                            assert(last_slash(cwd@, sl as int) == sl - 1);
                        }
                        sl -= 1;
                        found = true;
                    } else {
                        proof {
                            assert(last_slash(cwd@, sl as int) == last_slash(cwd@, sl - 1));
                        }
                        sl -= 1;
                    }
                }
                if !found {
                    return vstd::pervasive::unreached();
                }
                let keep = if sl < 1 {
                    1
                } else {
                    sl
                };
                let ghost cwd0 = cwd@;
                cwd.truncate(keep);
                proof {
                    assert(cwd@ =~= cwd0.take(if 1 >= sl {
                        1int
                    } else {
                        sl as int
                    }));
                }
            } else if cd.len() == 1 && cd[0] == 47 {
                proof {
                    assert(cd@ =~= seq![47u8]);
                }
                let mut root_name: Vec<u8> = Vec::new();
                root_name.push(47);
                let ghost ds0 = dirs@;
                dirs.push(DirTree { name: root_name, directories: Vec::new(), files: Vec::new() });
                cwd = Vec::new();
                cwd.push(47);
                proof {
                    assert(cwd@ =~= seq![47u8]);
                    assert(dirs@.drop_last() =~= ds0);
                    assert(dirs@.last().name@ =~= seq![47u8]);
                    assert(views_of(dirs@.last().directories@) =~= Seq::<Seq<u8>>::empty());
                    assert(lift_dir(dirs@.last()) == dm(seq![47u8], Seq::empty(), Seq::empty()));
                    assert(lift_dirs(dirs@) =~= lift_dirs(ds0).push(
                        dm(seq![47u8], Seq::empty(), Seq::empty()),
                    ));
                    assert(log_step(st, l) == Some((lift_dirs(dirs@), cwd@)));
                }
            } else {
                proof {
                    assert(cd@ != seq![46u8, 46u8] && cd@ != seq![47u8]) by {
                        if cd@ == seq![46u8, 46u8] {
                            assert(cd@.len() == 2 && cd@[0] == 46 && cd@[1] == 46);
                        }
                        if cd@ == seq![47u8] {
                            assert(cd@.len() == 1 && cd@[0] == 47);
                        }
                    }
                }
                let idx = find_dir_in(&dirs, &cwd);
                proof {
                    lemma_find_dir(lift_dirs(dirs@), cwd@, 0);
                }
                if idx == dirs.len() {
                    return vstd::pervasive::unreached();
                }
                let ghost ds0 = dirs@;
                let mut parent = dirs.remove(idx);
                let sub = parent.new_sub_directory(slice_to_vec(cd));
                cwd = slice_to_vec(sub.name.as_slice());
                dirs.insert(idx, parent);
                dirs.push(sub);
                proof {
                    let ms0 = lift_dirs(ds0);
                    let p0 = ms0[idx as int];
                    let nm = DirTree::spec_sub_name(p0.0, cd@);
                    assert(p0 == lift_dir(ds0[idx as int]));
                    assert(lift_dirs(dirs@) =~= ms0.update(
                        idx as int,
                        dm(p0.0, p0.1.push(nm), p0.2),
                    ).push(dm(nm, Seq::empty(), Seq::empty())));
                    assert(cwd@ == nm);
                    assert(log_step(st, l) == Some((lift_dirs(dirs@), cwd@)));
                }
            }
        } else if (line.len() >= 4 && line[0] == 36 && line[1] == 32 && line[2] == 108 && line[3]
            == 115) || (line.len() >= 3 && line[0] == 100 && line[1] == 105 && line[2] == 114) {
            // a listing header or a subdirectory entry: nothing to do
        } else {
            let sp = find_byte(line.as_slice(), 0, 32);
            proof {
                crate::text::lemma_find_byte_bounds(l, 0, 32);
                assert(0 <= sp <= l.len());
            }
            let tok = slice_subrange(line.as_slice(), 0, sp);
            proof {
                assert(tok@ =~= l.take(find_byte_from(l, 0, 32)));
            }
            let size = match parse_u32(tok) {
                Some(v) => v,
                None => vstd::pervasive::unreached(),
            };
            let idx = find_dir_in(&dirs, &cwd);
            proof {
                lemma_find_dir(lift_dirs(dirs@), cwd@, 0);
            }
            if idx == dirs.len() {
                return vstd::pervasive::unreached();
            }
            let ghost ds0 = dirs@;
            let mut parent = dirs.remove(idx);
            parent.add_file(size);
            dirs.insert(idx, parent);
            proof {
                let ms0 = lift_dirs(ds0);
                let p0 = ms0[idx as int];
                assert(p0 == lift_dir(ds0[idx as int]));
                assert(lift_dirs(dirs@) =~= ms0.update(
                    idx as int,
                    dm(p0.0, p0.1, p0.2.push(size)),
                ));
                assert(log_step(st, l) == Some((lift_dirs(dirs@), cwd@)));
            }
        }
        i += 1;
    }
    proof {
        assert(lsq.skip(n as int) =~= Seq::<Seq<u8>>::empty());
    }
    dirs
}

/// Index of the directory whose path equals `name`, or the length.
fn find_dir_in(dirs: &Vec<DirTree>, name: &Vec<u8>) -> (r: usize)
    ensures
        r == find_dir(lift_dirs(dirs@), name@, 0),
{
    let ghost ms = lift_dirs(dirs@);
    let n = dirs.len();
    let mut i: usize = 0;
    while i < n
        invariant
            0 <= i <= n,
            n == ms.len(),
            ms == lift_dirs(dirs@),
            n == dirs@.len(),
            find_dir(ms, name@, 0) == find_dir(ms, name@, i as int),
        decreases n - i,
    {
        proof {
            assert(ms[i as int] == lift_dir(dirs@[i as int]));
        }
        if bytes_eq(dirs[i].name.as_slice(), name.as_slice()) {
            proof {
                assert(find_dir(ms, name@, i as int) == i);
            }
            return i;
        }
        proof {
            assert(find_dir(ms, name@, i as int) == find_dir(ms, name@, i + 1));
        }
        i += 1;
    }
    n
}

/// Sum of the sizes of the directories of size under 100000.
pub open spec fn small_dirs_sum(ms: Seq<(Seq<u8>, Seq<Seq<u8>>, Seq<u32>)>, i: int) -> int
    decreases ms.len() - i,
{
    if i < 0 || i >= ms.len() {
        0
    } else {
        (if dir_size(ms, ms[i].0, 0) < 100000 {
            dir_size(ms, ms[i].0, 0)
        } else {
            0int
        }) + small_dirs_sum(ms, i + 1)
    }
}

proof fn lemma_small_sum_nonneg(ms: Seq<(Seq<u8>, Seq<Seq<u8>>, Seq<u32>)>, i: int)
    ensures
        small_dirs_sum(ms, i) >= 0,
    decreases ms.len() - i,
{
    if 0 <= i && i < ms.len() {
        lemma_small_sum_nonneg(ms, i + 1);
        lemma_dir_size_nonneg(ms, ms[i].0, 0);
    }
}

/// Total size of the directories whose own size stays under 100000.
#[verifier::loop_isolation(false)]
pub fn size_of_small_dirs(input: &str) -> (r: u32)
    requires
        parsed_log(input.spec_bytes()) is Some,
        ({
            let ms = parsed_log(input.spec_bytes())->0;
            &&& forall|i: int|
                0 <= i < ms.len() ==> dir_size(ms, (#[trigger] ms[i]).0, 0) <= u32::MAX
            &&& small_dirs_sum(ms, 0) <= u32::MAX
        }),
    ensures
        r == small_dirs_sum(parsed_log(input.spec_bytes())->0, 0),
{
    let dirs = parse_console_log(input);
    let ghost ms = lift_dirs(dirs@);
    let n = dirs.len();
    let mut sum: u32 = 0;
    let mut i: usize = 0;
    while i < n
        invariant
            0 <= i <= n,
            sum + small_dirs_sum(ms, i as int) == small_dirs_sum(ms, 0),
        decreases n - i,
    {
        proof {
            assert(ms[i as int] == lift_dir(dirs@[i as int]));
            lemma_small_sum_nonneg(ms, i + 1);
            lemma_dir_size_nonneg(ms, ms[i as int].0, 0);
        }
        let d = &dirs[i];
        let size = d.size(dirs.as_slice());
        if size < 100_000 {
            sum = sum + size;
        }
        i += 1;
    }
    sum
}

/// The smaller of two values.
pub open spec fn min2(a: int, b: int) -> int {
    if a <= b {
        a
    } else {
        b
    }
}

/// The smallest directory size above `need`, scanning from index `i`;
/// a sentinel beyond every size when none qualifies.
pub open spec fn min_delete(ms: Seq<(Seq<u8>, Seq<Seq<u8>>, Seq<u32>)>, need: int, i: int) -> int
    decreases ms.len() - i,
{
    if i < 0 || i >= ms.len() {
        0x1_0000_0000
    } else {
        let sz = dir_size(ms, ms[i].0, 0);
        let rest = min_delete(ms, need, i + 1);
        if sz > need && sz < rest {
            sz
        } else {
            rest
        }
    }
}

/// Size of the smallest directory whose removal brings the free space
/// of a 70000000-unit disk to 30000000 units.
#[verifier::loop_isolation(false)]
pub fn smallest_directory_to_delete(input: &str) -> (r: u32)
    requires
        parsed_log(input.spec_bytes()) is Some,
        ({
            let ms = parsed_log(input.spec_bytes())->0;
            &&& ms.len() > 0
            &&& forall|i: int|
                0 <= i < ms.len() ==> dir_size(ms, (#[trigger] ms[i]).0, 0) <= u32::MAX
            &&& dir_size(ms, ms[0].0, 0) <= 70_000_000
            &&& 70_000_000 - dir_size(ms, ms[0].0, 0) <= 30_000_000
            &&& min_delete(ms, 30_000_000 - (70_000_000 - dir_size(ms, ms[0].0, 0)), 0)
                < 0x1_0000_0000
        }),
    ensures
        ({
            let ms = parsed_log(input.spec_bytes())->0;
            r == min_delete(ms, 30_000_000 - (70_000_000 - dir_size(ms, ms[0].0, 0)), 0)
        }),
{
    let dirs = parse_console_log(input);
    let ghost ms = lift_dirs(dirs@);
    proof {
        assert(ms[0] == lift_dir(dirs@[0]));
    }
    let root_size = dirs[0].size(dirs.as_slice());
    let free_space = 70_000_000 - root_size;
    let space_to_free = 30_000_000 - free_space;
    let ghost need = space_to_free as int;
    let n = dirs.len();
    let mut best: u64 = 0x1_0000_0000;
    let mut i: usize = 0;
    while i < n
        invariant
            0 <= i <= n,
            min2(best as int, min_delete(ms, need, i as int)) == min_delete(ms, need, 0),
            best <= 0x1_0000_0000,
        decreases n - i,
    {
        proof {
            assert(ms[i as int] == lift_dir(dirs@[i as int]));
            lemma_dir_size_nonneg(ms, ms[i as int].0, 0);
        }
        let d = &dirs[i];
        let size = d.size(dirs.as_slice());
        if size > space_to_free && (size as u64) < best {
            best = size as u64;
        }
        i += 1;
    }
    proof {
        assert(min_delete(ms, need, n as int) == 0x1_0000_0000);
    }
    best as u32
}

} // verus!
