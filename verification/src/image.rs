//! Images of a category: their extension, the digest that names their output,
//! and the scanning of a category's files.

use vstd::prelude::*;

use sha2::Digest;

use crate::category::Category;
use crate::error::Error;

verus! {

/// The SHA-256 digest of `data`, as `sha2` computes it.
pub uninterp spec fn sha256_digest(data: Seq<u8>) -> Seq<u8>;

/// The file name of a path, as `std::path::Path::file_name` finds it, with
/// the name converted to text as `to_string_lossy` does.
pub uninterp spec fn path_file_name(path: Seq<char>) -> Option<Seq<char>>;

/// The lower-case hex digit of `n`, for `0 <= n < 16`.
pub open spec fn hex_digit(n: int) -> char {
    seq!['0', '1', '2', '3', '4', '5', '6', '7', '8', '9', 'a', 'b', 'c', 'd', 'e', 'f'][n]
}

/// The lower-case hex text of `data`: two digits per byte, high half first.
pub open spec fn hex_lower(data: Seq<u8>) -> Seq<char>
    decreases data.len(),
{
    if data.len() == 0 {
        Seq::empty()
    } else {
        seq![hex_digit(data[0] as int / 16), hex_digit(data[0] as int % 16)] + hex_lower(data.drop_first())
    }
}

/// The length of a hex text is twice the number of bytes.
pub proof fn lemma_hex_lower_len(data: Seq<u8>)
    ensures
        hex_lower(data).len() == 2 * data.len(),
    decreases data.len(),
{
    if data.len() > 0 {
        lemma_hex_lower_len(data.drop_first());
    }
}

/// The number of hex digits of a digest that name an image.
pub const DIGEST_LEN: usize = 15;

/// The digest that names an image of content `content`: the first fifteen
/// lower-case hex digits of its SHA-256 digest.
pub open spec fn image_digest(content: Seq<u8>) -> Seq<char> {
    hex_lower(sha256_digest(content)).take(DIGEST_LEN as int)
}

/// The index of the last `.` in `s`, or -1 if there is none.
pub open spec fn last_dot(s: Seq<char>) -> int
    decreases s.len(),
{
    if s.len() == 0 {
        -1
    } else if s.last() == '.' {
        s.len() - 1
    } else {
        last_dot(s.drop_last())
    }
}

/// The extension of a file name: what follows its last `.`, unless there is
/// no `.`, the only one starts the name, or the name is `..`.
pub open spec fn name_extension(name: Seq<char>) -> Option<Seq<char>> {
    let d = last_dot(name);
    if d <= 0 || name == seq!['.', '.'] {
        None
    } else {
        Some(name.subrange(d + 1, name.len() as int))
    }
}

/// Where the last `.` of `s` is: nowhere, or at an index after which no `.` follows.
pub proof fn lemma_last_dot(s: Seq<char>)
    ensures
        last_dot(s) == -1 ==> !s.contains('.'),
        last_dot(s) != -1 ==> 0 <= last_dot(s) < s.len() && s[last_dot(s)] == '.'
            && forall|j: int| last_dot(s) < j < s.len() ==> s[j] != '.',
    decreases s.len(),
{
    if s.len() > 0 {
        lemma_last_dot(s.drop_last());
        if s.contains('.') && s.last() != '.' {
            let k = choose|k: int| 0 <= k < s.len() && s[k] == '.';
            assert(s.drop_last()[k] == '.');
        }
        assert(forall|j: int| 0 <= j < s.len() - 1 ==> s.drop_last()[j] == s[j]);
    }
}

/// An extension holds no `.`, and the name is a non-empty stem, a `.` and the
/// extension.
pub proof fn lemma_name_extension_shape(name: Seq<char>)
    ensures
        name_extension(name) matches Some(ext) ==> {
            &&& !ext.contains('.')
            &&& exists|stem: Seq<char>| stem.len() > 0 && name == stem + seq!['.'] + ext
        },
        name_extension(name) is None ==> !name.subrange(1, name.len() as int).contains('.')
            || name.len() == 0 || name == seq!['.', '.'],
{
    lemma_last_dot(name);
    let d = last_dot(name);
    if d > 0 {
        let ext = name.subrange(d + 1, name.len() as int);
        if ext.contains('.') {
            let k = choose|k: int| 0 <= k < ext.len() && ext[k] == '.';
            assert(name[d + 1 + k] == '.');
        }
        let stem = name.subrange(0, d);
        assert(name =~= stem + seq!['.'] + ext);
    } else if name.len() > 0 {
        if name.subrange(1, name.len() as int).contains('.') {
            let k = choose|k: int| 0 <= k < name.len() - 1 && name.subrange(1, name.len() as int)[k] == '.';
            assert(name[k + 1] == '.');
        }
    }
}

/// The extension of the file name of a path; none when the path has no file name.
pub open spec fn path_extension(path: Seq<char>) -> Option<Seq<char>> {
    match path_file_name(path) {
        Some(name) => name_extension(name),
        None => None,
    }
}

/// Whether `c` is a lower-case hex digit.
pub open spec fn is_hex_digit(c: char) -> bool {
    ('0' <= c && c <= '9') || ('a' <= c && c <= 'f')
}

/// Every character of a hex text is a lower-case hex digit.
pub proof fn lemma_hex_lower_digits(data: Seq<u8>)
    ensures
        forall|i: int| 0 <= i < hex_lower(data).len() ==> is_hex_digit(#[trigger] hex_lower(data)[i]),
    decreases data.len(),
{
    if data.len() > 0 {
        lemma_hex_lower_digits(data.drop_first());
        let head = seq![hex_digit(data[0] as int / 16), hex_digit(data[0] as int % 16)];
        assert(is_hex_digit(head[0]) && is_hex_digit(head[1]));
        let rest = hex_lower(data.drop_first());
        assert forall|i: int| 0 <= i < hex_lower(data).len() implies is_hex_digit(
            #[trigger] hex_lower(data)[i],
        ) by {
            if i >= 2 {
                assert(hex_lower(data)[i] == rest[i - 2]);
            }
        }
    }
}

/// The SHA-256 digest of `data`.
///
/// Calls `sha2::Sha256::digest`. Its result is named by `sha256_digest`, and
/// it has 32 bytes, the output size of `Sha256`.
#[verifier::external_body]
fn sha256(data: &[u8]) -> (d: Vec<u8>)
    ensures
        d@ == sha256_digest(data@),
        d@.len() == 32,
{
    sha2::Sha256::digest(data).to_vec()
}

/// The lower-case hex text of `data`.
///
/// Calls `hex::encode`, which writes each byte as two lower-case digits, the
/// high half first.
#[verifier::external_body]
fn hex_encode(data: &[u8]) -> (s: String)
    ensures
        s@ == hex_lower(data@),
{
    hex::encode(data)
}

/// The file name of `path`.
///
/// Calls `std::path::Path::file_name` and converts the name with
/// `to_string_lossy`. Its result is named by `path_file_name`.
#[verifier::external_body]
fn file_name_of(path: &str) -> (name: Option<String>)
    ensures
        name.deep_view() == path_file_name(path@),
{
    match std::path::Path::new(path).file_name() {
        Some(name) => Some(name.to_string_lossy().into_owned()),
        None => None,
    }
}

/// The extension of the file name `name`.
pub fn extension_of_name(name: &str) -> (ext: Option<String>)
    ensures
        ext.deep_view() == name_extension(name@),
{
    let n = name.unicode_len();
    let mut found = false;
    let mut last: usize = 0;
    let mut i: usize = 0;
    for c in it: name.chars()
        invariant
            n == name@.len(),
            it.seq() == name@,
            i == it.index(),
            found ==> last < i && last_dot(name@.take(i as int)) == last,
            !found ==> last_dot(name@.take(i as int)) == -1,
    {
        assert(name@.take(i + 1).drop_last() =~= name@.take(i as int));
        if c == '.' {
            found = true;
            last = i;
        }
        i = i + 1;
    }
    assert(name@.take(n as int) =~= name@);
    proof {
        lemma_last_dot(name@);
    }
    if !found || last == 0 {
        None
    } else if n == 2 && name.get_char(0) == '.' {
        assert(name@ =~= seq!['.', '.']);
        None
    } else {
        Some(name.substring_char(last + 1, n).to_owned())
    }
}

/// The extension of the file name of `path`.
pub fn extension_of_path(path: &str) -> (ext: Option<String>)
    ensures
        ext.deep_view() == path_extension(path@),
{
    match file_name_of(path) {
        Some(name) => extension_of_name(name.as_str()),
        None => None,
    }
}


/// One image of a category.
#[derive(Debug, PartialEq, Eq)]
pub struct Image<'a> {
    category: &'a Category,
    file: String,
    extension: String,
    digest: String,
}

/// What an image holds, as plain values.
pub struct ImageView {
    pub category: Category,
    pub file: Seq<char>,
    pub extension: Seq<char>,
    pub digest: Seq<char>,
}

impl<'a> View for Image<'a> {
    type V = ImageView;

    closed spec fn view(&self) -> ImageView {
        ImageView {
            category: *self.category,
            file: self.file@,
            extension: self.extension@,
            digest: self.digest@,
        }
    }
}

/// The bytes of a file that could be read, or nothing when it could not.
pub open spec fn content_view(content: Option<Vec<u8>>) -> Option<Seq<u8>> {
    match content {
        Some(bytes) => Some(bytes@),
        None => None,
    }
}

/// The image that the file `file` of `category` makes, given its `content`:
/// none when the file is not an image file, which is judged by its having an
/// extension (any format that the image backend reads counts), or when it
/// could not be read or is empty.
pub open spec fn image_of(
    category: Category,
    file: Seq<char>,
    content: Option<Seq<u8>>,
) -> Option<ImageView> {
    match path_extension(file) {
        None => None,
        Some(extension) => match content {
            None => None,
            Some(bytes) => if bytes.len() == 0 {
                None
            } else {
                Some(ImageView { category, file, extension, digest: image_digest(bytes) })
            },
        },
    }
}

/// The image of a file is there exactly when the file has an extension and a
/// non-empty content that could be read; it keeps the category, the path and
/// the extension, and its digest is that of the whole content: the first
/// fifteen lower-case hex digits of the SHA-256 digest of every byte.
pub proof fn lemma_image_of(category: Category, file: Seq<char>, content: Option<Seq<u8>>)
    ensures
        image_of(category, file, content) is Some <==> (path_extension(file) is Some
            && content is Some && content->0.len() > 0),
        image_of(category, file, content) matches Some(v) ==> {
            &&& v.category == category
            &&& v.file == file
            &&& path_extension(file) == Some(v.extension)
            &&& v.digest == hex_lower(sha256_digest(content->0)).take(15)
        },
{
}

/// The output name of an image depends on its content and extension only:
/// two files with the same content and extension give the same name, whatever
/// their category and path.
pub proof fn lemma_output_name_depends_on_content(
    c1: Category,
    f1: Seq<char>,
    c2: Category,
    f2: Seq<char>,
    content: Seq<u8>,
)
    requires
        image_of(c1, f1, Some(content)) is Some,
        image_of(c2, f2, Some(content)) is Some,
        path_extension(f1) == path_extension(f2),
    ensures
        image_of(c1, f1, Some(content))->0.digest + seq!['.'] + image_of(
            c1,
            f1,
            Some(content),
        )->0.extension == image_of(c2, f2, Some(content))->0.digest + seq!['.'] + image_of(
            c2,
            f2,
            Some(content),
        )->0.extension,
{
}

/// The file, read or not, as plain values.
pub open spec fn file_view(f: (String, Option<Vec<u8>>)) -> (Seq<char>, Option<Seq<u8>>) {
    (f.0@, content_view(f.1))
}

/// The images that `files` of `category` make, in their order.
pub open spec fn images_of(
    category: Category,
    files: Seq<(Seq<char>, Option<Seq<u8>>)>,
) -> Seq<ImageView>
    decreases files.len(),
{
    if files.len() == 0 {
        Seq::empty()
    } else {
        let rest = images_of(category, files.drop_last());
        match image_of(category, files.last().0, files.last().1) {
            Some(img) => rest.push(img),
            None => rest,
        }
    }
}

/// The extensions of the files `paths`, for those that have one, in their order.
pub open spec fn extensions_of(paths: Seq<Seq<char>>) -> Seq<Seq<char>>
    decreases paths.len(),
{
    if paths.len() == 0 {
        Seq::empty()
    } else {
        let rest = extensions_of(paths.drop_last());
        match path_extension(paths.last()) {
            Some(ext) => rest.push(ext),
            None => rest,
        }
    }
}

/// The extensions of two lists of files, one after the other, are those of
/// the first list followed by those of the second; a single file gives its
/// extension, or nothing when it has none.
pub proof fn lemma_extensions_of_concat(a: Seq<Seq<char>>, b: Seq<Seq<char>>)
    ensures
        extensions_of(a + b) == extensions_of(a) + extensions_of(b),
    decreases b.len(),
{
    if b.len() == 0 {
        assert(a + b =~= a);
        assert(extensions_of(a) + extensions_of(b) =~= extensions_of(a));
    } else {
        lemma_extensions_of_concat(a, b.drop_last());
        assert((a + b).drop_last() =~= a + b.drop_last());
        assert((a + b).last() == b.last());
        match path_extension(b.last()) {
            Some(e) => {
                assert(extensions_of(a) + extensions_of(b.drop_last()).push(e) =~= (extensions_of(a)
                    + extensions_of(b.drop_last())).push(e));
            },
            None => {},
        }
    }
}

/// Every file that has an extension contributes it, and one that has none
/// contributes nothing.
pub proof fn lemma_extensions_of_single(p: Seq<char>)
    ensures
        extensions_of(seq![p]) == match path_extension(p) {
            Some(e) => seq![e],
            None => Seq::<Seq<char>>::empty(),
        },
{
    assert(seq![p].drop_last() =~= Seq::<Seq<char>>::empty());
    reveal_with_fuel(extensions_of, 2);
    match path_extension(p) {
        Some(e) => {
            assert(Seq::<Seq<char>>::empty().push(e) =~= seq![e]);
        },
        None => {},
    }
}

/// The extensions of the files `paths`, for those that have one, in their order.
pub fn file_extensions(paths: &Vec<String>) -> (exts: Vec<String>)
    ensures
        crate::category::str_views(exts@) == extensions_of(crate::category::str_views(paths@)),
{
    let ghost all = crate::category::str_views(paths@);
    let mut exts: Vec<String> = Vec::new();
    let n = paths.len();
    for i in 0..n
        invariant
            n == paths@.len(),
            all == crate::category::str_views(paths@),
            crate::category::str_views(exts@) == extensions_of(all.take(i as int)),
    {
        assert(all.take(i + 1).drop_last() =~= all.take(i as int));
        match extension_of_path(paths[i].as_str()) {
            Some(ext) => {
                let ghost before = exts@;
                exts.push(ext);
                assert(crate::category::str_views(exts@) =~= crate::category::str_views(before).push(ext@));
            },
            None => {},
        }
    }
    assert(all.take(n as int) =~= all);
    exts
}

/// The digest text of a SHA-256 hash: its first fifteen lower-case hex digits.
pub fn digest_of_hash(hash: &[u8]) -> (d: String)
    requires
        2 * hash@.len() >= DIGEST_LEN,
    ensures
        d@ == hex_lower(hash@).take(DIGEST_LEN as int),
        d@.len() == DIGEST_LEN,
        forall|i: int| 0 <= i < d@.len() ==> is_hex_digit(#[trigger] d@[i]),
{
    let hex = hex_encode(hash);
    proof {
        lemma_hex_lower_len(hash@);
        lemma_hex_lower_digits(hash@);
    }
    hex.as_str().substring_char(0, DIGEST_LEN).to_owned()
}

impl<'a> Image<'a> {
    /// The digest that names the image of content `content` read from `file`;
    /// an empty content is an error.
    pub fn make_digest(file: &str, content: &[u8]) -> (r: Result<String, Error>)
        ensures
            r is Err <==> content@.len() == 0,
            r matches Err(e) ==> e matches Error::EmptyImage(f) && f@ == file@,
            r matches Ok(d) ==> d@ == image_digest(content@),
            r matches Ok(d) ==> d@.len() == DIGEST_LEN,
            r matches Ok(d) ==> forall|i: int| 0 <= i < d@.len() ==> is_hex_digit(#[trigger] d@[i]),
    {
        if content.len() == 0 {
            return Err(Error::EmptyImage(file.to_owned()));
        }
        let hash = sha256(content);
        Ok(digest_of_hash(hash.as_slice()))
    }

    /// The image that the file `file` of `category` makes, given its `content`
    /// (nothing when it could not be read): none when the file has no
    /// extension, could not be read or is empty.
    pub fn new(category: &'a Category, file: String, content: Option<Vec<u8>>) -> (r: Option<Self>)
        ensures
            match r {
                Some(img) => image_of(*category, file@, content_view(content)) == Some(img@),
                None => image_of(*category, file@, content_view(content)) is None,
            },
    {
        match extension_of_path(file.as_str()) {
            Some(extension) => match content {
                Some(bytes) => match Self::make_digest(file.as_str(), bytes.as_slice()) {
                    Ok(digest) => Some(Image { category, file, extension, digest }),
                    Err(_) => None,
                },
                None => None,
            },
            None => None,
        }
    }

    /// The category of the image.
    pub fn category(&self) -> (c: &'a Category)
        ensures
            *c == self@.category,
    {
        self.category
    }

    /// The path of the image's file.
    pub fn file(&self) -> (f: &str)
        ensures
            f@ == self@.file,
    {
        self.file.as_str()
    }

    /// The extension of the image's file.
    pub fn extension(&self) -> (e: &str)
        ensures
            e@ == self@.extension,
    {
        self.extension.as_str()
    }

    /// The digest that names the image's output.
    pub fn digest(&self) -> (d: &str)
        ensures
            d@ == self@.digest,
    {
        self.digest.as_str()
    }

    /// The name of the image's output file: its digest, a `.` and its extension.
    pub fn output_file_name(&self) -> (name: String)
        ensures
            name@ == self@.digest + seq!['.'] + self@.extension,
    {
        let mut name = self.digest.clone();
        name.append(".");
        name.append(self.extension.as_str());
        proof {
            reveal_strlit(".");
        }
        name
    }
}

impl Category {
    /// The images that the files of this category make, in their order.
    /// Each of `files` is the path of a file of the category's folder with its
    /// content, or nothing when it could not be read.
    pub fn scan_images(&self, files: Vec<(String, Option<Vec<u8>>)>) -> (images: Vec<Image<'_>>)
        ensures
            images@.map_values(|img: Image| img@) == images_of(
                *self,
                files@.map_values(|f: (String, Option<Vec<u8>>)| file_view(f)),
            ),
    {
        let ghost all = files@.map_values(|f: (String, Option<Vec<u8>>)| file_view(f));
        let mut images: Vec<Image<'_>> = Vec::new();
        let mut i: usize = 0;
        let n = files.len();
        for f in it: files
            invariant
                it.seq() == files@,
                i == it.index(),
                n == files@.len(),
                all == files@.map_values(|f: (String, Option<Vec<u8>>)| file_view(f)),
                images@.map_values(|img: Image| img@) == images_of(*self, all.take(i as int)),
        {
            assert(all.take(i + 1).drop_last() =~= all.take(i as int));
            assert(all[i as int] == file_view(f));
            let (file, content) = f;
            let ghost before = images@;
            match Image::new(self, file, content) {
                Some(img) => {
                    images.push(img);
                    assert(images@.map_values(|img: Image| img@) =~= before.map_values(
                        |img: Image| img@,
                    ).push(img@));
                },
                None => {},
            }
            i = i + 1;
        }
        assert(all.take(n as int) =~= all);
        images
    }
}
} // verus!
