# winfacl

A terminal POSIX.1e ACL manager in the style of the Windows "Advanced
Security Settings" dialog: an expandable filesystem tree on the left, a
live permission editor on the right, and a `-d` mode that prints an ACL
in getfacl(1) form.

```
winfacl                     # browse the whole filesystem from /
winfacl /srv                # browse, rooted at /srv
winfacl /srv/share/file     # edit one file
winfacl -d /srv/share       # dump in getfacl(1) form
```

## Layout

- `src/` is the verified library (Verus). Its functions carry
  `requires`/`ensures` contracts over mathematical models (`Seq`, `int`,
  views of each type), and the laws that relate several operations are
  public proof functions.
  - `acl/model.rs`: the entry list, canonical order, mask calculation,
    validation, effective access and the getfacl listing.
  - `acl/xattr.rs`: the `system.posix_acl_*` wire format, with
    decode-after-encode proved.
  - `acl/facade.rs`: the object model (load from what the system said,
    staging, dirty tracking, the bookkeeping of an apply).
  - `acl/names.rs`: uid/gid names through `uzers`, numeric fallback.
  - `tree.rs`: the lazy filesystem tree (an arena), its merge of a
    directory listing, sorting, paths and the visible list.
  - `ui/`: the decisions of the dialogs, the browser and the editor's
    key map, as state plus step functions.
- `app/` is the program around it: command line, terminal, drawing, and
  the system calls (stat, xattrs, directory reads, the recursive walk),
  which hand plain values to the library.
- `tests/` exercises the library on concrete values.
