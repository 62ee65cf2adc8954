# radicle_surf

A file system as it stands at one snapshot of a version-control history,
written in Verus and proved correct against its specification.

* `file_system` — labels (file and directory names) and paths, parsed from
  and written to text; directories of files stored in a sorted tree, with
  look-up of files and sub-directories, listings, sizes, and insertion of
  single files, groups of files, and whole maps of files; named files
  grouped by the directory they stand in.
* `tree` — the sorted tree underneath: insertion at a path, look-up, and the
  greatest node under a comparison.
* `diff` — the difference between two directories (the files created,
  deleted and modified), the reading of git's patches and diff lines into
  file changes (also for deltas that git gives no patch for), and of a
  patch's hunks into line changes with a note on missing final newlines.
* `vcs` — histories of artifacts (commits, patches) and the search for an
  artifact in them.
* `vcs::git` — git namespaces, the reference globs used to search a
  repository, references read from and written to their names (with git's
  check of a name done by `radicle-git-ext`), the classification of a
  reference name as tag, branch or remote branch, branches and tags read
  from reference names, commits and tags assembled from what was read of
  git's objects, and revisions asked for by name.
* `traits`, `types` — the history model: directories and their prefix
  order; file names and contents; commits, the changes they make to files,
  and the map from each file to the commits that changed it, newest first;
  the contents of a file rebuilt from a list of commits; histories of
  commits and repositories of histories, with the search for a commit by
  hash; the files under a directory and the commits of an author.
* `nonempty`, `strings`, `smallcheck` — non-empty vectors, text comparison,
  and choice by frequency.

Every public function carries a contract; the laws that tie functions
together (what a look-up gives back after an insertion, that a directory's
listing names each file once and in order, that a difference lists exactly
the files created, deleted and modified, that every file put into a
directory is found there unless another file lies on its way, that paths
and namespaces read back what was written, that a reference's name reads
back as the reference and back again, that recording a change leaves the
files it does not touch alone) are proof functions next to the code they
speak of.

`app/` reads git repositories through `git2` into these types: the directory
of a commit, the file changes between two commits, the hunks of a patch,
the namespace being browsed and the references, branches and tags that a
glob selects in it, a reference by name, the branch or tag a reference is,
the commit of a git commit, and the history of a revision.

`tests/` runs the library on concrete values.
