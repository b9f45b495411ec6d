//! Pictures: the training images and their common size, the example images of a
//! new project, and the grid that shows sample predictions.
use vstd::prelude::*;
use vstd::string::StringExecFns;

use crate::data;
use crate::model;
use crate::paths;
use crate::rng;
use crate::rng::Rng;
use crate::text;

verus! {

// ---------------------------------------------------------------------------
// What the `image` crate is relied on for.
// ---------------------------------------------------------------------------

/// A color picture, held by `image::RgbImage`.
#[verifier::external_body]
pub struct Picture {
    img: image::RgbImage,
}

/// A picture of gray levels, held by `image::GrayImage`.
#[verifier::external_body]
pub struct GrayPicture {
    img: image::GrayImage,
}

/// The colors of a picture by column and row.
pub uninterp spec fn picture_pixels(p: Picture) -> Map<(int, int), (u8, u8, u8)>;

/// The width and height of a picture.
pub uninterp spec fn picture_size(p: Picture) -> (nat, nat);

/// The levels of a gray picture by column and row.
pub uninterp spec fn gray_pixels(p: GrayPicture) -> Map<(int, int), u8>;

/// The width and height of a gray picture.
pub uninterp spec fn gray_size(p: GrayPicture) -> (nat, nat);

/// What `image::imageops::resize` with the triangle filter makes of the levels
/// of a gray picture: its levels, width and height, and the new width and
/// height.
pub uninterp spec fn resized(
    levels: Seq<u8>,
    width: u32,
    height: u32,
    new_width: u32,
    new_height: u32,
) -> Seq<u8>;

/// Whether a place lies within a size.
pub open spec fn within(place: (int, int), width: int, height: int) -> bool {
    0 <= place.0 < width && 0 <= place.1 < height
}

/// A picture of one color.
pub open spec fn plain<C>(width: u32, height: u32, color: C) -> Map<(int, int), C> {
    Map::new(
        |place: (int, int)| within(place, width as int, height as int),
        |place: (int, int)| color,
    )
}

/// `RgbImage::from_pixel` makes a picture of one color. It panics where the
/// bytes of the picture do not fit in a vector.
#[verifier::external_body]
fn picture_of(width: u32, height: u32, color: (u8, u8, u8)) -> (r: Picture)
    requires
        3 * width * height <= isize::MAX,
    ensures
        picture_pixels(r) == plain(width, height, color),
        picture_size(r) == (width as nat, height as nat),
{
    Picture {
        img: image::RgbImage::from_pixel(width, height, image::Rgb([color.0, color.1, color.2])),
    }
}

/// `RgbImage::put_pixel` sets one pixel. It panics where there is no such
/// pixel.
#[verifier::external_body]
fn put_pixel(p: &mut Picture, x: u32, y: u32, color: (u8, u8, u8))
    requires
        within(
            (x as int, y as int),
            picture_size(*old(p)).0 as int,
            picture_size(*old(p)).1 as int,
        ),
    ensures
        picture_pixels(*final(p)) == picture_pixels(*old(p)).insert((x as int, y as int), color),
        picture_size(*final(p)) == picture_size(*old(p)),
{
    p.img.put_pixel(x, y, image::Rgb([color.0, color.1, color.2]));
}

/// `RgbImage::into_raw` gives the bytes of a picture: row by row, three for
/// each pixel.
#[verifier::external_body]
fn picture_bytes(p: Picture) -> (r: Vec<u8>)
    ensures
        r@.len() == 3 * picture_size(p).0 * picture_size(p).1,
        forall|x: int, y: int|
            within((x, y), picture_size(p).0 as int, picture_size(p).1 as int) ==> {
                let at = 3 * (y * picture_size(p).0 + x);
                let color = #[trigger] picture_pixels(p)[(x, y)];
                r@[at] == color.0 && r@[at + 1] == color.1 && r@[at + 2] == color.2
            },
{
    p.img.into_raw()
}

/// `GrayImage::new` makes a black picture. It panics where the bytes of the
/// picture do not fit in a vector.
#[verifier::external_body]
fn black(width: u32, height: u32) -> (r: GrayPicture)
    requires
        width * height <= isize::MAX,
    ensures
        gray_pixels(r) == plain(width, height, 0u8),
        gray_size(r) == (width as nat, height as nat),
{
    GrayPicture { img: image::GrayImage::new(width, height) }
}

/// `GrayImage::put_pixel` sets one pixel. It panics where there is no such
/// pixel.
#[verifier::external_body]
fn put_level(p: &mut GrayPicture, x: u32, y: u32, level: u8)
    requires
        within((x as int, y as int), gray_size(*old(p)).0 as int, gray_size(*old(p)).1 as int),
    ensures
        gray_pixels(*final(p)) == gray_pixels(*old(p)).insert((x as int, y as int), level),
        gray_size(*final(p)) == gray_size(*old(p)),
{
    p.img.put_pixel(x, y, image::Luma([level]));
}

/// `GrayImage::into_raw` gives the bytes of a picture: row by row, one for each
/// pixel.
#[verifier::external_body]
fn gray_bytes(p: GrayPicture) -> (r: Vec<u8>)
    ensures
        r@.len() == gray_size(p).0 * gray_size(p).1,
        forall|x: int, y: int|
            within((x, y), gray_size(p).0 as int, gray_size(p).1 as int) ==> r@[y * gray_size(p).0
                + x] == #[trigger] gray_pixels(p)[(x, y)],
{
    p.img.into_raw()
}

/// The longest side that the filter is used with. The place of a pixel is computed
/// in single precision: up to here it is off by less than half a pixel, so that the
/// weights of a pixel cannot all come out as zero.
pub open spec fn max_side() -> nat {
    0x3F_FFFF
}

/// Whether a picture of one size can be brought to another: the sides are not
/// too long, and the picture between the two steps, of four numbers of four
/// bytes for each pixel, fits in a vector.
pub open spec fn can_resize(width: u32, height: u32, new_width: u32, new_height: u32) -> bool {
    &&& width <= max_side()
    &&& height <= max_side()
    &&& new_width <= max_side()
    &&& new_height <= max_side()
    &&& 16 * width * new_height <= isize::MAX
    &&& new_width * new_height <= isize::MAX
}

/// `image::imageops::resize` with `FilterType::Triangle` is a function of the
/// picture and the new size, and gives a picture of that size.
#[verifier::external_body]
fn resize(levels: Vec<u8>, width: u32, height: u32, new_width: u32, new_height: u32) -> (r: Vec<u8>)
    requires
        levels@.len() == width * height,
        can_resize(width, height, new_width, new_height),
    ensures
        r@ == resized(levels@, width, height, new_width, new_height),
        r@.len() == new_width * new_height,
{
    let img = image::GrayImage::from_raw(width, height, levels).unwrap_or_default();
    let filter = image::imageops::FilterType::Triangle;
    image::imageops::resize(&img, new_width, new_height, filter).into_raw()
}

// ---------------------------------------------------------------------------
// The training images.
// ---------------------------------------------------------------------------

/// A decoded picture: its gray levels row by row.
pub struct Decoded {
    pub width: u32,
    pub height: u32,
    pub levels: Vec<u8>,
}

impl Decoded {
    /// Whether there is a level for each pixel.
    pub open spec fn wf(&self) -> bool {
        self.levels@.len() == self.width * self.height
    }

    /// Whether it has a given size.
    pub open spec fn has_size(&self, width: u32, height: u32) -> bool {
        self.width == width && self.height == height
    }

    /// Its levels brought to a given size.
    pub open spec fn fitted(&self, width: u32, height: u32) -> Seq<u8> {
        if self.has_size(width, height) {
            self.levels@
        } else {
            resized(self.levels@, self.width, self.height, width, height)
        }
    }

    /// Whether it can be brought to a given size.
    pub fn can_fit(&self, width: u32, height: u32) -> (r: bool)
        ensures
            r == (self.has_size(width, height) || can_resize(
                self.width,
                self.height,
                width,
                height,
            )),
    {
        if self.width == width && self.height == height {
            true
        } else if self.width > 0x3F_FFFF || self.height > 0x3F_FFFF || width > 0x3F_FFFF || height
            > 0x3F_FFFF {
            false
        } else {
            proof {
                let (a, b, c) = (self.width as int, width as int, height as int);
                assert(0 <= 16 * a * c <= 0x1_0000_0000_0000 && 0 <= b * c <= 0x1000_0000_0000)
                    by (nonlinear_arith)
                    requires
                        0 <= a <= 0x3F_FFFF,
                        0 <= b <= 0x3F_FFFF,
                        0 <= c <= 0x3F_FFFF,
                ;
                assert(16 * a * c == 16 * (a * c)) by (nonlinear_arith);
            }
            let between: u64 = 16 * (self.width as u64 * height as u64);
            let after: u64 = width as u64 * height as u64;
            between <= isize::MAX as u64 && after <= isize::MAX as u64
        }
    }
}

/// What is wrong with a directory of images.
#[derive(Clone, Copy, Debug, PartialEq, Eq, Structural)]
pub enum ImagesError {
    /// There are fewer than two class directories.
    TooFewClasses,
    /// The class directories hold no image.
    NoImages,
}

/// What went wrong, for people.
pub open spec fn images_message(
    error: ImagesError,
    dir: Seq<char>,
    classes: Seq<Seq<char>>,
) -> Seq<char> {
    match error {
        ImagesError::TooFewClasses => "need at least 2 class sub-folders in "@ + dir
            + " \u{2014} found "@ + data::debug_list(classes),
        ImagesError::NoImages => "no images found under "@ + dir + "/<class>/"@,
    }
}

impl ImagesError {
    /// What went wrong, for people.
    pub fn message(&self, dir: &str, classes: &Vec<String>) -> (r: String)
        ensures
            r@ == images_message(*self, dir@, text::texts(classes@)),
    {
        match *self {
            ImagesError::TooFewClasses => {
                let mut r = "need at least 2 class sub-folders in ".to_string();
                r.append(dir);
                r.append(" \u{2014} found ");
                let shown = data::show_list(classes);
                r.append(shown.as_str());
                r
            },
            ImagesError::NoImages => {
                let mut r = "no images found under ".to_string();
                r.append(dir);
                r.append("/<class>/");
                r
            },
        }
    }
}

/// The classes of a directory of images: the names of its directories in order.
pub fn class_list(names: &Vec<String>) -> (r: Result<Vec<String>, (ImagesError, Vec<String>)>)
    ensures
        match r {
            Ok(classes) => names@.len() >= 2 && text::is_sorted_from(
                text::texts(classes@),
                text::texts(names@),
            ),
            Err((error, classes)) => names@.len() < 2 && error == ImagesError::TooFewClasses
                && text::is_sorted_from(text::texts(classes@), text::texts(names@)),
        },
{
    let classes = text::sorted(names);
    proof {
        lemma_sorted_len(text::texts(classes@), text::texts(names@));
    }
    if classes.len() < 2 {
        Err((ImagesError::TooFewClasses, classes))
    } else {
        Ok(classes)
    }
}

proof fn lemma_sorted_len(a: Seq<Seq<char>>, b: Seq<Seq<char>>)
    requires
        text::is_sorted_from(a, b),
    ensures
        a.len() == b.len(),
{
    broadcast use vstd::seq_lib::group_to_multiset_ensures;

    assert(a.to_multiset().len() == b.to_multiset().len());
}

/// The names of a list that belong to images.
pub open spec fn image_names(names: Seq<Seq<char>>) -> Seq<Seq<char>>
    decreases names.len(),
{
    if names.len() == 0 {
        Seq::empty()
    } else if model::names_image(names.last()) {
        image_names(names.drop_last()).push(names.last())
    } else {
        image_names(names.drop_last())
    }
}

/// The image files of a class directory, in order.
fn image_files(names: &Vec<String>) -> (r: Vec<String>)
    ensures
        text::is_sorted_from(text::texts(r@), image_names(text::texts(names@))),
{
    let ghost all = text::texts(names@);
    let mut picked: Vec<String> = Vec::new();
    let mut i: usize = 0;
    assert(text::texts(picked@) =~= image_names(all.take(0)));
    while i < names.len()
        invariant
            i <= names@.len(),
            all == text::texts(names@),
            text::texts(picked@) == image_names(all.take(i as int)),
        decreases names@.len() - i,
    {
        let ghost before = text::texts(picked@);
        assert(all.take(i + 1).drop_last() =~= all.take(i as int));
        assert(all.take(i + 1).last() == names@[i as int]@);
        if model::has_image_ext(names[i].as_str()) {
            picked.push(names[i].clone());
            assert(text::texts(picked@) =~= before.push(names@[i as int]@));
        }
        i += 1;
    }
    assert(all.take(i as int) =~= all);
    text::sorted(&picked)
}

/// One image file: the place of its class, and its name within the class.
pub struct ImageFile {
    pub class: usize,
    pub name: String,
}

/// The files of a list, by class and name.
pub open spec fn file_pairs(list: Seq<ImageFile>) -> Seq<(usize, Seq<char>)> {
    Seq::new(list.len(), |i: int| (list[i].class, list[i].name@))
}

/// The image files of one class.
pub open spec fn of_class(class: usize, names: Seq<Seq<char>>) -> Seq<(usize, Seq<char>)> {
    Seq::new(names.len(), |i: int| (class, names[i]))
}

/// The files of all classes, class by class.
pub open spec fn by_class(own: Seq<Seq<Seq<char>>>) -> Seq<(usize, Seq<char>)>
    decreases own.len(),
{
    if own.len() == 0 {
        Seq::empty()
    } else {
        by_class(own.drop_last()) + of_class((own.len() - 1) as usize, own.last())
    }
}

/// Whether `own` holds the image files of each class in order.
pub open spec fn sorts_each(own: Seq<Seq<Seq<char>>>, names: Seq<Seq<Seq<char>>>) -> bool {
    &&& own.len() == names.len()
    &&& forall|c: int|
        0 <= c < names.len() ==> text::is_sorted_from(
            #[trigger] own[c],
            image_names(names[c]),
        )
}

/// Whether `files` lists the image files of all classes: class by class, and
/// within a class in the order of their names.
pub open spec fn lists_images(files: Seq<(usize, Seq<char>)>, names: Seq<Seq<Seq<char>>>) -> bool {
    exists|own: Seq<Seq<Seq<char>>>| #[trigger] sorts_each(own, names) && files == by_class(own)
}

/// Whether there is an image in no class.
pub open spec fn no_images(names: Seq<Seq<Seq<char>>>) -> bool {
    forall|c: int| 0 <= c < names.len() ==> image_names(#[trigger] names[c]).len() == 0
}

proof fn lemma_no_images(own: Seq<Seq<Seq<char>>>, names: Seq<Seq<Seq<char>>>)
    requires
        sorts_each(own, names),
    ensures
        no_images(names) <==> by_class(own).len() == 0,
    decreases own.len(),
{
    if own.len() > 0 {
        let front = own.drop_last();
        let rest = names.drop_last();
        let c = names.len() - 1;
        assert forall|k: int| 0 <= k < rest.len() implies text::is_sorted_from(
            #[trigger] front[k],
            image_names(rest[k]),
        ) by {
            assert(front[k] == own[k]);
        }
        lemma_no_images(front, rest);
        assert(own.last() == own[c]);
        lemma_sorted_len(own[c], image_names(names[c]));
        if by_class(own).len() == 0 {
            assert forall|k: int| 0 <= k < names.len() implies image_names(
                #[trigger] names[k],
            ).len() == 0 by {
                if k < rest.len() {
                    assert(rest[k] == names[k]);
                }
            }
        }
        if no_images(names) {
            assert forall|k: int| 0 <= k < rest.len() implies image_names(#[trigger] rest[k]).len()
                == 0 by {
                assert(rest[k] == names[k]);
            }
        }
    }
}

/// The images of all classes; `names` holds the names of the files in each
/// class directory.
pub fn image_list(names: &Vec<Vec<String>>) -> (r: Result<Vec<ImageFile>, ImagesError>)
    ensures
        match r {
            Ok(files) => !no_images(data::grid(names@)) && lists_images(
                file_pairs(files@),
                data::grid(names@),
            ),
            Err(error) => no_images(data::grid(names@)) && error == ImagesError::NoImages,
        },
{
    let ghost all = data::grid(names@);
    let mut files: Vec<ImageFile> = Vec::new();
    let ghost mut lists: Seq<Seq<Seq<char>>> = Seq::empty();
    let mut c: usize = 0;
    assert(file_pairs(files@) =~= by_class(lists));
    while c < names.len()
        invariant
            c <= names@.len(),
            all == data::grid(names@),
            sorts_each(lists, all.take(c as int)),
            file_pairs(files@) == by_class(lists),
        decreases names@.len() - c,
    {
        let own = image_files(&names[c]);
        let ghost front = file_pairs(files@);
        let ghost sorted = text::texts(own@);
        let mut i: usize = 0;
        assert(file_pairs(files@) =~= front + of_class(c, sorted).take(0));
        while i < own.len()
            invariant
                i <= own@.len(),
                sorted == text::texts(own@),
                file_pairs(files@) == front + of_class(c, sorted).take(i as int),
            decreases own@.len() - i,
        {
            let ghost before = file_pairs(files@);
            files.push(ImageFile { class: c, name: own[i].clone() });
            proof {
                assert(file_pairs(files@) =~= before.push((c, sorted[i as int])));
                assert(of_class(c, sorted).take(i + 1) =~= of_class(c, sorted).take(
                    i as int,
                ).push((c, sorted[i as int])));
                assert(file_pairs(files@) =~= front + of_class(c, sorted).take(i + 1));
            }
            i += 1;
        }
        proof {
            assert(of_class(c, sorted).take(i as int) =~= of_class(c, sorted));
            assert(lists.push(sorted).drop_last() =~= lists);
            lists = lists.push(sorted);
            assert(all[c as int] == text::texts(names@[c as int]@));
            assert(sorts_each(lists, all.take(c + 1)));
        }
        c += 1;
    }
    assert(all.take(c as int) =~= all);
    proof {
        lemma_no_images(lists, all);
    }
    if files.len() == 0 {
        Err(ImagesError::NoImages)
    } else {
        Ok(files)
    }
}

/// The images in one size, with their classes.
pub struct LoadedImages {
    pub images: Vec<Vec<u8>>,
    pub labels: Vec<usize>,
    pub height: u32,
    pub width: u32,
}

/// Brings decoded images to the size of the first of them.
pub fn load_images(decoded: &Vec<Decoded>, files: &Vec<ImageFile>) -> (r: LoadedImages)
    requires
        decoded@.len() == files@.len(),
        decoded@.len() >= 1,
        forall|i: int| 0 <= i < decoded@.len() ==> (#[trigger] decoded@[i]).wf(),
        forall|i: int|
            0 <= i < decoded@.len() ==> (#[trigger] decoded@[i]).has_size(
                decoded@[0].width,
                decoded@[0].height,
            ) || can_resize(
                decoded@[i].width,
                decoded@[i].height,
                decoded@[0].width,
                decoded@[0].height,
            ),
    ensures
        r.width == decoded@[0].width,
        r.height == decoded@[0].height,
        r.images@.len() == decoded@.len(),
        forall|i: int|
            0 <= i < decoded@.len() ==> (#[trigger] r.images@[i])@ == decoded@[i].fitted(
                r.width,
                r.height,
            ) && r.images@[i]@.len() == r.width * r.height,
        r.labels@ == Seq::new(files@.len(), |i: int| files@[i].class),
{
    let width = decoded[0].width;
    let height = decoded[0].height;
    let mut images: Vec<Vec<u8>> = Vec::new();
    let mut labels: Vec<usize> = Vec::new();
    let mut i: usize = 0;
    while i < decoded.len()
        invariant
            decoded@.len() == files@.len(),
            i <= decoded@.len(),
            forall|k: int| 0 <= k < decoded@.len() ==> (#[trigger] decoded@[k]).wf(),
            forall|k: int|
                0 <= k < decoded@.len() ==> (#[trigger] decoded@[k]).has_size(width, height)
                    || can_resize(decoded@[k].width, decoded@[k].height, width, height),
            images@.len() == i,
            labels@ == Seq::new(i as nat, |k: int| files@[k].class),
            forall|k: int|
                0 <= k < i ==> (#[trigger] images@[k])@ == decoded@[k].fitted(width, height)
                    && images@[k]@.len() == width * height,
        decreases decoded@.len() - i,
    {
        let picture = &decoded[i];
        let levels = picture.levels.clone();
        assert(levels@ =~= picture.levels@);
        let fitted = if picture.width == width && picture.height == height {
            levels
        } else {
            resize(levels, picture.width, picture.height, width, height)
        };
        images.push(fitted);
        labels.push(files[i].class);
        i += 1;
        assert(labels@ =~= Seq::new(i as nat, |k: int| files@[k].class));
    }
    assert(labels@ =~= Seq::new(files@.len(), |i: int| files@[i].class));
    LoadedImages { images, labels, height, width }
}

// ---------------------------------------------------------------------------
// The example images of a new project.
// ---------------------------------------------------------------------------

/// The side of an example image.
pub const EXAMPLE_SIZE: u32 = 24;

/// How many example images each class has.
pub const EXAMPLES_PER_CLASS: u64 = 36;

/// How many random numbers an example image takes: three for the pattern and one
/// for each pixel.
pub const EXAMPLE_DRAWS: u64 = 579;

/// The state of the generator before the first example image.
pub const EXAMPLE_SEED: u64 = 7;

/// The width of a stripe and the gap after it.
pub open spec fn period_of(state: u64) -> int {
    3 + rng::draw(state, 0) % 3
}

/// How far the stripes are shifted.
pub open spec fn phase_of(state: u64) -> int {
    rng::draw(state, 1) as int % period_of(state)
}

/// The side of a square of the checkerboard.
pub open spec fn square_of(state: u64) -> int {
    2 + rng::draw(state, 2) % 3
}

/// Whether a place of an example image is bright: horizontal, vertical and
/// diagonal stripes, and a checkerboard.
pub open spec fn is_bright(state: u64, class: int, x: int, y: int) -> bool {
    let stripe = if period_of(state) / 2 > 1 {
        period_of(state) / 2
    } else {
        1
    };
    if class == 0 {
        (y + phase_of(state)) % period_of(state) < stripe
    } else if class == 1 {
        (x + phase_of(state)) % period_of(state) < stripe
    } else if class == 2 {
        (x + y + phase_of(state)) % period_of(state) < stripe
    } else {
        (x / square_of(state) + y / square_of(state)) % 2 == 0
    }
}

/// The level of a place of an example image: bright or dark, with some noise.
pub open spec fn example_level(state: u64, class: int, x: int, y: int) -> int {
    (if is_bright(state, class, x, y) {
        220int
    } else {
        30int
    }) + rng::draw(state, (3 + EXAMPLE_SIZE * y + x) as nat) % 37 - 18
}

/// Draws an example image of a class.
fn example_image(gen: &mut Rng, class: usize) -> (r: Vec<u8>)
    ensures
        final(gen).state == rng::advance(old(gen).state, EXAMPLE_DRAWS as nat),
        r@.len() == EXAMPLE_SIZE * EXAMPLE_SIZE,
        forall|x: int, y: int|
            0 <= x < EXAMPLE_SIZE && 0 <= y < EXAMPLE_SIZE ==> #[trigger] r@[EXAMPLE_SIZE * y + x]
                == example_level(old(gen).state, class as int, x, y),
{
    let ghost state = gen.state;
    proof {
        rng::lemma_advance(state, 1, 0);
        rng::lemma_advance(state, 1, 1);
        rng::lemma_advance(state, 2, 0);
        rng::lemma_advance(state, 2, 1);
    }
    let period = 3 + gen.below(3);
    let phase = gen.below(period);
    let square = 2 + gen.below(3);
    let stripe = if period / 2 > 1 {
        period / 2
    } else {
        1
    };
    let mut img = black(EXAMPLE_SIZE, EXAMPLE_SIZE);
    let mut y: usize = 0;
    while y < 24
        invariant
            y <= 24,
            gray_size(img) == (24nat, 24nat),
            gen.state == rng::advance(state, (3 + 24 * y) as nat),
            period == period_of(state),
            phase == phase_of(state),
            square == square_of(state),
            stripe == if period_of(state) / 2 > 1 {
                period_of(state) / 2
            } else {
                1
            },
            forall|a: int, b: int|
                0 <= a < 24 && 0 <= b < y ==> #[trigger] gray_pixels(img)[(a, b)] == example_level(
                    state,
                    class as int,
                    a,
                    b,
                ),
        decreases 24 - y,
    {
        let mut x: usize = 0;
        while x < 24
            invariant
                x <= 24,
                y < 24,
                gray_size(img) == (24nat, 24nat),
                gen.state == rng::advance(state, (3 + 24 * y + x) as nat),
                period == period_of(state),
                phase == phase_of(state),
                square == square_of(state),
                stripe == if period_of(state) / 2 > 1 {
                    period_of(state) / 2
                } else {
                    1
                },
                forall|a: int, b: int|
                    0 <= a < 24 && 0 <= b < 24 && (b < y || (b == y && a < x))
                        ==> #[trigger] gray_pixels(img)[(a, b)] == example_level(
                        state,
                        class as int,
                        a,
                        b,
                    ),
            decreases 24 - x,
        {
            proof {
                rng::lemma_advance(state, (3 + 24 * y + x) as nat, 0);
                rng::lemma_advance(state, (3 + 24 * y + x) as nat, 1);
            }
            let bright = if class == 0 {
                (y + phase) % period < stripe
            } else if class == 1 {
                (x + phase) % period < stripe
            } else if class == 2 {
                (x + y + phase) % period < stripe
            } else {
                proof {
                    assert(0 <= x as int / square as int <= x && 0 <= y as int / square as int <= y)
                        by (nonlinear_arith)
                        requires
                            square > 0,
                    ;
                }
                (x / square + y / square) % 2 == 0
            };
            let base: usize = if bright {
                220
            } else {
                30
            };
            let noise = gen.below(37);
            let level = (base + noise - 18) as u8;
            put_level(&mut img, x as u32, y as u32, level);
            x += 1;
        }
        y += 1;
    }
    let r = gray_bytes(img);
    assert forall|x: int, y: int|
        0 <= x < EXAMPLE_SIZE && 0 <= y < EXAMPLE_SIZE implies #[trigger] r@[EXAMPLE_SIZE * y + x]
        == example_level(state, class as int, x, y) by {
        assert(within((x, y), 24, 24));
        assert(gray_pixels(img)[(x, y)] == example_level(state, class as int, x, y));
        assert(y * 24 + x == EXAMPLE_SIZE * y + x);
    }
    r
}

/// An example image: its directory and name, and its levels row by row.
pub struct ExampleImage {
    pub class: &'static str,
    pub name: String,
    pub levels: Vec<u8>,
}

/// The name of a class of example images.
pub open spec fn example_class(class: int) -> Seq<char> {
    if class == 0 {
        "horizontal"@
    } else if class == 1 {
        "vertical"@
    } else if class == 2 {
        "diagonal"@
    } else {
        "checker"@
    }
}

/// The file name of an example image.
pub open spec fn example_name(i: nat) -> Seq<char> {
    "img_"@ + text::zero_padded(i, 3) + ".png"@
}

/// The state of the generator before the `j`-th example image.
pub open spec fn example_state(j: int) -> u64 {
    rng::advance(EXAMPLE_SEED, (j * EXAMPLE_DRAWS) as nat)
}

/// The example images of a new project: 36 for each of the four classes, drawn
/// one after the other.
pub fn write_example_images() -> (r: Vec<ExampleImage>)
    ensures
        r@.len() == 4 * EXAMPLES_PER_CLASS,
        forall|j: int|
            0 <= j < r@.len() ==> {
                let image = #[trigger] r@[j];
                &&& image.class@ == example_class(j / EXAMPLES_PER_CLASS as int)
                &&& image.name@ == example_name((j % EXAMPLES_PER_CLASS as int) as nat)
                &&& image.levels@ == Seq::new(
                    (EXAMPLE_SIZE * EXAMPLE_SIZE) as nat,
                    |k: int|
                        example_level(
                            example_state(j),
                            j / EXAMPLES_PER_CLASS as int,
                            k % EXAMPLE_SIZE as int,
                            k / EXAMPLE_SIZE as int,
                        ) as u8,
                )
            },
{
    let mut r: Vec<ExampleImage> = Vec::new();
    let mut gen = Rng { state: EXAMPLE_SEED };
    let mut j: usize = 0;
    assert(gen.state == example_state(0));
    while j < 144
        invariant
            j <= 144,
            r@.len() == j,
            gen.state == example_state(j as int),
            forall|i: int|
                0 <= i < j ==> {
                    let image = #[trigger] r@[i];
                    &&& image.class@ == example_class(i / EXAMPLES_PER_CLASS as int)
                    &&& image.name@ == example_name((i % EXAMPLES_PER_CLASS as int) as nat)
                    &&& image.levels@ == Seq::new(
                        (EXAMPLE_SIZE * EXAMPLE_SIZE) as nat,
                        |k: int|
                            example_level(
                                example_state(i),
                                i / EXAMPLES_PER_CLASS as int,
                                k % EXAMPLE_SIZE as int,
                                k / EXAMPLE_SIZE as int,
                            ) as u8,
                    )
                },
        decreases 144 - j,
    {
        let c = j / 36;
        let class = if c == 0 {
            "horizontal"
        } else if c == 1 {
            "vertical"
        } else if c == 2 {
            "diagonal"
        } else {
            "checker"
        };
        let mut name = "img_".to_string();
        text::push_padded(&mut name, (j % 36) as u64, 3);
        name.append(".png");
        proof {
            rng::lemma_advance(EXAMPLE_SEED, (j * EXAMPLE_DRAWS) as nat, EXAMPLE_DRAWS as nat);
            assert((j * EXAMPLE_DRAWS) + EXAMPLE_DRAWS == (j + 1) * EXAMPLE_DRAWS)
                by (nonlinear_arith);
        }
        let levels = example_image(&mut gen, c);
        proof {
            assert forall|k: int| 0 <= k < 576 implies levels@[k] == example_level(
                example_state(j as int),
                c as int,
                k % 24,
                k / 24,
            ) as u8 by {
                assert(levels@[EXAMPLE_SIZE * (k / 24) + k % 24] == example_level(
                    example_state(j as int),
                    c as int,
                    k % 24,
                    k / 24,
                ));
                assert(EXAMPLE_SIZE * (k / 24) + k % 24 == k);
            }
            assert(levels@ =~= Seq::new(
                (EXAMPLE_SIZE * EXAMPLE_SIZE) as nat,
                |k: int|
                    example_level(
                        example_state(j as int),
                        j as int / EXAMPLES_PER_CLASS as int,
                        k % EXAMPLE_SIZE as int,
                        k / EXAMPLE_SIZE as int,
                    ) as u8,
            ));
        }
        r.push(ExampleImage { class, name, levels });
        j += 1;
    }
    r
}

/// The example images are found as images by their names, so that a new project
/// trains as it is.
pub proof fn law_examples_are_found(i: nat)
    ensures
        model::names_image(example_name(i)),
{
    reveal_strlit("img_");
    reveal_strlit(".png");
    reveal_strlit("png");
    reveal_strlit(".");
    reveal_strlit("..");
    text::lemma_decimal_chars(i);
    let name = example_name(i);
    let n = name.len() as int;
    let digits = text::zero_padded(i, 3);
    assert forall|k: int| 0 <= k < name.len() implies #[trigger] name[k] != '/' by {
        if 4 <= k < 4 + digits.len() {
            assert(name[k] == digits[k - 4]);
        }
    }
    assert(!name.contains('/'));
    text::lemma_split_none(name, '/');
    let parts = text::split_on(name, '/');
    assert(parts.last() == name);
    assert(name[0] == 'i');
    assert(paths::file_name(name) == Some(name));
    assert(name.take(n - 1) =~= name.drop_last());
    assert(name.take(n - 2) =~= name.drop_last().drop_last());
    assert(name.take(n - 3) =~= name.drop_last().drop_last().drop_last());
    assert(name[n - 1] == 'g' && name[n - 2] == 'n' && name[n - 3] == 'p' && name[n - 4] == '.');
    reveal_with_fuel(paths::last_stop, 5);
    assert(paths::last_stop(name) == n - 4);
    assert(name.skip(n - 3) =~= "png"@);
    assert(text::ascii_lower("png"@) =~= "png"@);
}

/// In an example image the bright places stand out from the dark ones, whatever
/// the noise.
pub proof fn law_example_contrast(state: u64, class: int, x: int, y: int)
    ensures
        is_bright(state, class, x, y) ==> 202 <= example_level(state, class, x, y) <= 238,
        !is_bright(state, class, x, y) ==> 12 <= example_level(state, class, x, y) <= 48,
{
}

// ---------------------------------------------------------------------------
// The grid of sample predictions.
// ---------------------------------------------------------------------------

/// How many tiles stand in a row of the grid.
pub open spec fn grid_columns(n: int) -> int {
    if n < 8 {
        n
    } else {
        8
    }
}

/// How many rows the grid has.
pub open spec fn grid_rows(n: int) -> int {
    (n + grid_columns(n) - 1) / grid_columns(n)
}

/// By how much an image is enlarged, so that small ones are legible.
pub open spec fn tile_scale(height: int, width: int) -> int {
    let side = if height > width {
        height
    } else {
        width
    };
    if side <= 0 {
        32
    } else if side <= 32 {
        32int / side
    } else {
        1
    }
}

/// The width or height of a cell of the grid: the tile and three pixels on
/// either side.
pub open spec fn cell_side(side: int, scale: int) -> int {
    side * scale + 6
}

pub open spec fn grid_width(n: int, height: int, width: int) -> int {
    grid_columns(n) * cell_side(width, tile_scale(height, width))
}

pub open spec fn grid_height(n: int, height: int, width: int) -> int {
    grid_rows(n) * cell_side(height, tile_scale(height, width))
}

/// Whether a grid of `n` tiles can be drawn.
pub open spec fn grid_fits(n: int, height: int, width: int) -> bool {
    &&& grid_width(n, height, width) <= u32::MAX
    &&& grid_height(n, height, width) <= u32::MAX
    &&& 3 * grid_width(n, height, width) * grid_height(n, height, width) <= isize::MAX
}

/// The ground between the tiles.
pub open spec fn ground_color() -> (u8, u8, u8) {
    (24, 24, 28)
}

/// The border of a tile: green for a right prediction, red for a wrong one. A
/// prediction that is missing counts as the class -1.
pub open spec fn border_color(preds: Seq<i64>, target: usize, i: int) -> (u8, u8, u8) {
    let predicted: int = if i < preds.len() {
        preds[i] as int
    } else {
        -1
    };
    if predicted == target as i64 {
        (52, 168, 108)
    } else {
        (220, 76, 76)
    }
}

/// Whether a place, seen from the corner of a tile, lies on its border, which is
/// two pixels wide.
pub open spec fn on_border(x: int, y: int, tile_width: int, tile_height: int) -> bool {
    ||| 0 <= x < tile_width && (y == 0 || y == 1 || y == tile_height - 1 || y == tile_height - 2)
    ||| 0 <= y < tile_height && (x == 0 || x == 1 || x == tile_width - 1 || x == tile_width - 2)
}

/// The color of a place of a cell, seen from the corner of its tile.
pub open spec fn tile_color(
    levels: Seq<u8>,
    border: (u8, u8, u8),
    height: int,
    width: int,
    x: int,
    y: int,
) -> (u8, u8, u8) {
    let scale = tile_scale(height, width);
    if on_border(x, y, width * scale, height * scale) {
        border
    } else if within((x, y), width * scale, height * scale) {
        let level = levels[(y / scale) * width + x / scale];
        (level, level, level)
    } else {
        ground_color()
    }
}

/// The color of a place of the grid when the first `done` tiles are drawn.
pub open spec fn grid_color(
    images: Seq<Vec<u8>>,
    height: int,
    width: int,
    preds: Seq<i64>,
    targets: Seq<usize>,
    n: int,
    done: int,
    x: int,
    y: int,
) -> (u8, u8, u8) {
    let scale = tile_scale(height, width);
    let cell_width = cell_side(width, scale);
    let cell_height = cell_side(height, scale);
    let i = (y / cell_height) * grid_columns(n) + x / cell_width;
    if i < done {
        tile_color(
            images[i]@,
            border_color(preds, targets[i], i),
            height,
            width,
            x % cell_width - 3,
            y % cell_height - 3,
        )
    } else {
        ground_color()
    }
}

/// Draws a horizontal line.
fn across(p: &mut Picture, x0: u32, y: u32, len: u32, color: (u8, u8, u8))
    requires
        x0 + len <= picture_size(*old(p)).0 <= u32::MAX,
        y < picture_size(*old(p)).1,
    ensures
        picture_size(*final(p)) == picture_size(*old(p)),
        forall|a: int, b: int|
            #[trigger] picture_pixels(*final(p))[(a, b)] == if b == y && x0 <= a < x0 + len {
                color
            } else {
                picture_pixels(*old(p))[(a, b)]
            },
{
    let mut k: u32 = 0;
    while k < len
        invariant
            k <= len,
            x0 + len <= picture_size(*p).0 <= u32::MAX,
            y < picture_size(*p).1,
            picture_size(*p) == picture_size(*old(p)),
            forall|a: int, b: int|
                #[trigger] picture_pixels(*p)[(a, b)] == if b == y && x0 <= a < x0 + k {
                    color
                } else {
                    picture_pixels(*old(p))[(a, b)]
                },
        decreases len - k,
    {
        put_pixel(p, x0 + k, y, color);
        k += 1;
    }
}

/// Draws a vertical line.
fn down(p: &mut Picture, x: u32, y0: u32, len: u32, color: (u8, u8, u8))
    requires
        x < picture_size(*old(p)).0,
        y0 + len <= picture_size(*old(p)).1 <= u32::MAX,
    ensures
        picture_size(*final(p)) == picture_size(*old(p)),
        forall|a: int, b: int|
            #[trigger] picture_pixels(*final(p))[(a, b)] == if a == x && y0 <= b < y0 + len {
                color
            } else {
                picture_pixels(*old(p))[(a, b)]
            },
{
    let mut k: u32 = 0;
    while k < len
        invariant
            k <= len,
            x < picture_size(*p).0,
            y0 + len <= picture_size(*p).1 <= u32::MAX,
            picture_size(*p) == picture_size(*old(p)),
            forall|a: int, b: int|
                #[trigger] picture_pixels(*p)[(a, b)] == if a == x && y0 <= b < y0 + k {
                    color
                } else {
                    picture_pixels(*old(p))[(a, b)]
                },
        decreases len - k,
    {
        put_pixel(p, x, y0 + k, color);
        k += 1;
    }
}

/// Draws the border of a tile.
fn draw_border(p: &mut Picture, x0: u32, y0: u32, tw: u32, th: u32, color: (u8, u8, u8))
    requires
        3 <= x0,
        3 <= y0,
        x0 + tw + 3 <= picture_size(*old(p)).0 <= u32::MAX,
        y0 + th + 3 <= picture_size(*old(p)).1 <= u32::MAX,
    ensures
        picture_size(*final(p)) == picture_size(*old(p)),
        forall|a: int, b: int|
            #[trigger] picture_pixels(*final(p))[(a, b)] == if on_border(
                a - x0,
                b - y0,
                tw as int,
                th as int,
            ) {
                color
            } else {
                picture_pixels(*old(p))[(a, b)]
            },
{
    across(p, x0, y0, tw, color);
    across(p, x0, y0 + th - 1, tw, color);
    down(p, x0, y0, th, color);
    down(p, x0 + tw - 1, y0, th, color);
    across(p, x0, y0 + 1, tw, color);
    across(p, x0, y0 + th - 2, tw, color);
    down(p, x0 + 1, y0, th, color);
    down(p, x0 + tw - 2, y0, th, color);
}

proof fn lemma_source_index(x: int, y: int, scale: int, width: int, height: int)
    requires
        0 < scale,
        0 <= x < width * scale,
        0 <= y < height * scale,
    ensures
        0 <= x / scale < width,
        0 <= y / scale < height,
        0 <= (y / scale) * width,
        (y / scale) * width + x / scale < height * width,
{
    assert(0 <= x / scale < width) by (nonlinear_arith)
        requires
            0 < scale,
            0 <= x < width * scale,
    ;
    assert(0 <= y / scale < height) by (nonlinear_arith)
        requires
            0 < scale,
            0 <= y < height * scale,
    ;
    let (a, b) = (y / scale, x / scale);
    assert(0 <= a * width && a * width + b < height * width) by (nonlinear_arith)
        requires
            0 <= a < height,
            0 <= b < width,
    ;
}

/// Draws the pixels of a tile.
fn draw_image(
    p: &mut Picture,
    x0: u32,
    y0: u32,
    height: usize,
    width: usize,
    scale: usize,
    levels: &Vec<u8>,
)
    requires
        0 < scale,
        x0 + width * scale <= picture_size(*old(p)).0 <= u32::MAX,
        y0 + height * scale <= picture_size(*old(p)).1 <= u32::MAX,
        levels@.len() >= height * width,
    ensures
        picture_size(*final(p)) == picture_size(*old(p)),
        forall|a: int, b: int|
            #[trigger] picture_pixels(*final(p))[(a, b)] == if within(
                (a - x0, b - y0),
                width * scale,
                height * scale,
            ) {
                let level = levels@[((b - y0) / scale as int) * width + (a - x0) / scale as int];
                (level, level, level)
            } else {
                picture_pixels(*old(p))[(a, b)]
            },
{
    let tw = width * scale;
    let th = height * scale;
    let count = levels.len();
    let mut y: usize = 0;
    while y < th
        invariant
            y <= th,
            0 < scale,
            tw == width * scale,
            th == height * scale,
            x0 + tw <= picture_size(*p).0 <= u32::MAX,
            y0 + th <= picture_size(*p).1 <= u32::MAX,
            levels@.len() == count,
            count >= height * width,
            picture_size(*p) == picture_size(*old(p)),
            forall|a: int, b: int|
                #[trigger] picture_pixels(*p)[(a, b)] == if within(
                    (a - x0, b - y0),
                    tw as int,
                    y as int,
                ) {
                    let level = levels@[((b - y0) / scale as int) * width + (a - x0)
                        / scale as int];
                    (level, level, level)
                } else {
                    picture_pixels(*old(p))[(a, b)]
                },
        decreases th - y,
    {
        let mut x: usize = 0;
        while x < tw
            invariant
                x <= tw,
                y < th,
                0 < scale,
                tw == width * scale,
                th == height * scale,
                x0 + tw <= picture_size(*p).0 <= u32::MAX,
                y0 + th <= picture_size(*p).1 <= u32::MAX,
                levels@.len() == count,
                count >= height * width,
                picture_size(*p) == picture_size(*old(p)),
                forall|a: int, b: int|
                    #[trigger] picture_pixels(*p)[(a, b)] == if within(
                        (a - x0, b - y0),
                        tw as int,
                        y as int,
                    ) || (b - y0 == y && 0 <= a - x0 < x) {
                        let level = levels@[((b - y0) / scale as int) * width + (a - x0)
                            / scale as int];
                        (level, level, level)
                    } else {
                        picture_pixels(*old(p))[(a, b)]
                    },
            decreases tw - x,
        {
            proof {
                lemma_source_index(
                    x as int,
                    y as int,
                    scale as int,
                    width as int,
                    height as int,
                );
            }
            let level = levels[(y / scale) * width + x / scale];
            put_pixel(p, x0 + x as u32, y0 + y as u32, (level, level, level));
            x += 1;
        }
        y += 1;
    }
}

/// By how much an image is enlarged.
fn scale_for(height: usize, width: usize) -> (r: usize)
    ensures
        r == tile_scale(height as int, width as int),
        1 <= r <= 32,
{
    let side = if height > width {
        height
    } else {
        width
    };
    if side == 0 {
        32
    } else if side <= 32 {
        proof {
            let k = side as int;
            assert(1 <= 32int / k <= 32) by (nonlinear_arith)
                requires
                    1 <= k <= 32,
            ;
        }
        32 / side
    } else {
        1
    }
}

/// The width and height of a grid of `n` tiles, if it can be drawn.
pub fn grid_size(n: usize, height: usize, width: usize) -> (r: Option<(u32, u32)>)
    requires
        n > 0,
    ensures
        match r {
            Some((w, h)) => grid_fits(n as int, height as int, width as int) && w == grid_width(
                n as int,
                height as int,
                width as int,
            ) && h == grid_height(n as int, height as int, width as int),
            None => !grid_fits(n as int, height as int, width as int),
        },
{
    let scale = scale_for(height, width);
    let columns: u128 = if n < 8 {
        n as u128
    } else {
        8
    };
    let rows: u128 = (n as u128 + columns - 1) / columns;
    proof {
        let (a, b, k) = (width as int, height as int, scale as int);
        assert(0 <= a * k <= 32 * usize::MAX && 0 <= b * k <= 32 * usize::MAX) by (nonlinear_arith)
            requires
                0 <= a <= usize::MAX,
                0 <= b <= usize::MAX,
                1 <= k <= 32,
        ;
        let (m, c) = (n as int, columns as int);
        assert(1 <= (m + c - 1) / c <= m) by (nonlinear_arith)
            requires
                1 <= c <= m,
        ;
    }
    let cell_width: u128 = width as u128 * scale as u128 + 6;
    let cell_height: u128 = height as u128 * scale as u128 + 6;
    if cell_width > 0xffff_ffff || cell_height > 0xffff_ffff || rows > 0xffff_ffff {
        proof {
            let (cw, ch, c, r) = (
                cell_width as int,
                cell_height as int,
                columns as int,
                rows as int,
            );
            assert(c * cw >= cw && r * ch >= ch && r * ch >= r) by (nonlinear_arith)
                requires
                    c >= 1,
                    r >= 1,
                    cw >= 6,
                    ch >= 6,
            ;
        }
        return None;
    }
    proof {
        let (cw, ch, c, r) = (cell_width as int, cell_height as int, columns as int, rows as int);
        assert(0 <= c * cw <= 8 * 0xffff_ffff && 0 <= r * ch <= 0xffff_ffff * 0xffff_ffff)
            by (nonlinear_arith)
            requires
                0 <= c <= 8,
                0 <= r <= 0xffff_ffff,
                0 <= cw <= 0xffff_ffff,
                0 <= ch <= 0xffff_ffff,
        ;
    }
    let w: u128 = columns * cell_width;
    let h: u128 = rows * cell_height;
    if w > 0xffff_ffff || h > 0xffff_ffff {
        return None;
    }
    proof {
        let (a, b) = (w as int, h as int);
        assert(0 <= a * b <= 0xffff_ffff * 0xffff_ffff) by (nonlinear_arith)
            requires
                0 <= a <= 0xffff_ffff,
                0 <= b <= 0xffff_ffff,
        ;
        assert(3 * a * b == 3 * (a * b)) by (nonlinear_arith);
    }
    if 3 * (w * h) > isize::MAX as u128 {
        return None;
    }
    Some((w as u32, h as u32))
}

/// A color picture as bytes: row by row, three for each pixel.
pub struct Raster {
    pub width: u32,
    pub height: u32,
    pub bytes: Vec<u8>,
}

impl Raster {
    /// The color of a place.
    pub open spec fn color(&self, x: int, y: int) -> (u8, u8, u8) {
        let at = 3 * (y * self.width + x);
        (self.bytes@[at], self.bytes@[at + 1], self.bytes@[at + 2])
    }
}

/// How many tiles a grid of at most `n_max` images has.
pub open spec fn tile_count(images: int, n_max: int) -> int {
    if images < n_max {
        images
    } else {
        n_max
    }
}

proof fn lemma_in_cell(x: int, c: int, side: int)
    requires
        0 < side,
        0 <= x,
    ensures
        x / side == c <==> c * side <= x < c * side + side,
        x / side == c ==> x % side == x - c * side,
{
    vstd::arithmetic::div_mod::lemma_fundamental_div_mod(x, side);
    let q = x / side;
    assert(side * q == q * side) by (nonlinear_arith);
    if c * side <= x < c * side + side {
        vstd::arithmetic::div_mod::lemma_fundamental_div_mod_converse(x, side, c, x - c * side);
    }
}

/// The cell of a tile lies within the grid.
proof fn lemma_cell_within(i: int, n: int, columns: int, cell_width: int, cell_height: int)
    requires
        0 <= i < n,
        columns == grid_columns(n),
        0 < cell_width,
        0 < cell_height,
    ensures
        0 <= i % columns < columns,
        0 <= i / columns < grid_rows(n),
        i == (i / columns) * columns + i % columns,
        0 <= (i % columns) * cell_width,
        (i % columns) * cell_width + cell_width <= columns * cell_width,
        0 <= (i / columns) * cell_height,
        (i / columns) * cell_height + cell_height <= grid_rows(n) * cell_height,
{
    vstd::arithmetic::div_mod::lemma_fundamental_div_mod(i, columns);
    let (q, r) = (i / columns, i % columns);
    assert(columns * q == q * columns) by (nonlinear_arith);
    let rows = (n + columns - 1) / columns;
    vstd::arithmetic::div_mod::lemma_fundamental_div_mod(n + columns - 1, columns);
    assert(0 <= q < rows) by (nonlinear_arith)
        requires
            0 <= i < n,
            1 <= columns,
            i == columns * q + r,
            0 <= r < columns,
            n + columns - 1 == columns * rows + (n + columns - 1) % columns,
            0 <= (n + columns - 1) % columns < columns,
    ;
    assert(0 <= r * cell_width && r * cell_width + cell_width <= columns * cell_width)
        by (nonlinear_arith)
        requires
            0 <= r < columns,
            0 < cell_width,
    ;
    assert(0 <= q * cell_height && q * cell_height + cell_height <= rows * cell_height)
        by (nonlinear_arith)
        requires
            0 <= q < rows,
            0 < cell_height,
    ;
}

/// Two places in one row of cells are in the same cell only if they are in the
/// same column.
proof fn lemma_tile_index(i: int, columns: int, row: int, column: int)
    requires
        0 < columns,
        0 <= i,
        0 <= column < columns,
    ensures
        row * columns + column == i <==> (row == i / columns && column == i % columns),
{
    vstd::arithmetic::div_mod::lemma_fundamental_div_mod(i, columns);
    let q = i / columns;
    assert(columns * q == q * columns) by (nonlinear_arith);
    if row * columns + column == i {
        vstd::arithmetic::div_mod::lemma_fundamental_div_mod_converse(i, columns, row, column);
    }
}

/// Draws a grid of the first images, at most `n_max` of them, each with a border
/// that tells whether its prediction is right; nothing where there is no image.
pub fn image_grid(
    images: &Vec<Vec<u8>>,
    height: usize,
    width: usize,
    preds: &[i64],
    targets: &[usize],
    n_max: usize,
) -> (r: Option<Raster>)
    requires
        forall|i: int|
            0 <= i < tile_count(images@.len() as int, n_max as int) ==> (
            #[trigger] images@[i])@.len() >= height * width,
        targets@.len() >= tile_count(images@.len() as int, n_max as int),
        tile_count(images@.len() as int, n_max as int) > 0 ==> grid_fits(
            tile_count(images@.len() as int, n_max as int),
            height as int,
            width as int,
        ),
    ensures
        ({
            let n = tile_count(images@.len() as int, n_max as int);
            if n == 0 {
                r is None
            } else {
                &&& r is Some
                &&& r->0.width == grid_width(n, height as int, width as int)
                &&& r->0.height == grid_height(n, height as int, width as int)
                &&& r->0.bytes@.len() == 3 * r->0.width * r->0.height
                &&& forall|x: int, y: int|
                    within((x, y), r->0.width as int, r->0.height as int)
                        ==> #[trigger] r->0.color(x, y) == grid_color(
                        images@,
                        height as int,
                        width as int,
                        preds@,
                        targets@,
                        n,
                        n,
                        x,
                        y,
                    )
            }
        }),
{
    let n = if images.len() < n_max {
        images.len()
    } else {
        n_max
    };
    if n == 0 {
        return None;
    }
    let (grid_w, grid_h) = match grid_size(n, height, width) {
        Some(size) => size,
        None => {
            return None;
        },
    };
    let columns = if n < 8 {
        n
    } else {
        8
    };
    let scale = scale_for(height, width);
    let ghost cw = cell_side(width as int, scale as int);
    let ghost ch = cell_side(height as int, scale as int);
    proof {
        lemma_cell_within(0, n as int, columns as int, cw, ch);
        assert(0 <= width * scale && 0 <= height * scale) by (nonlinear_arith);
    }
    let tile_w = width * scale;
    let tile_h = height * scale;
    let cell_w = tile_w + 6;
    let cell_h = tile_h + 6;
    let mut canvas = picture_of(grid_w, grid_h, (24, 24, 28));
    let mut i: usize = 0;
    proof {
        assert forall|x: int, y: int| within((x, y), grid_w as int, grid_h as int) implies
            #[trigger] picture_pixels(canvas)[(x, y)] == grid_color(
            images@,
            height as int,
            width as int,
            preds@,
            targets@,
            n as int,
            0,
            x,
            y,
        ) by {
            assert(x / cw >= 0 && y / ch >= 0) by (nonlinear_arith)
                requires
                    x >= 0,
                    y >= 0,
                    cw > 0,
                    ch > 0,
            ;
            let (a, b) = (y / ch, columns as int);
            assert(a * b >= 0) by (nonlinear_arith)
                requires
                    a >= 0,
                    b >= 0,
            ;
        }
    }
    while i < n
        invariant
            i <= n,
            n == tile_count(images@.len() as int, n_max as int),
            n > 0,
            columns == grid_columns(n as int),
            scale == tile_scale(height as int, width as int),
            1 <= scale <= 32,
            cw == cell_side(width as int, scale as int),
            ch == cell_side(height as int, scale as int),
            tile_w == width * scale,
            tile_h == height * scale,
            cell_w == cw,
            cell_h == ch,
            grid_w == columns * cw,
            grid_h == grid_rows(n as int) * ch,
            forall|k: int| 0 <= k < n ==> (#[trigger] images@[k])@.len() >= height * width,
            targets@.len() >= n,
            n <= images@.len(),
            picture_size(canvas) == (grid_w as nat, grid_h as nat),
            forall|x: int, y: int|
                within((x, y), grid_w as int, grid_h as int) ==> #[trigger] picture_pixels(
                    canvas,
                )[(x, y)] == grid_color(
                    images@,
                    height as int,
                    width as int,
                    preds@,
                    targets@,
                    n as int,
                    i as int,
                    x,
                    y,
                ),
        decreases n - i,
    {
        proof {
            lemma_cell_within(i as int, n as int, columns as int, cw, ch);
        }
        let row = i / columns;
        let column = i % columns;
        let x0 = (column * cell_w + 3) as u32;
        let y0 = (row * cell_h + 3) as u32;
        let predicted: i64 = if i < preds.len() {
            preds[i]
        } else {
            -1
        };
        let target = #[verifier::truncate]
        (targets[i] as i64);
        let border = if predicted == target {
            (52u8, 168u8, 108u8)
        } else {
            (220u8, 76u8, 76u8)
        };
        assert(border == border_color(preds@, targets@[i as int], i as int));
        let ghost before = picture_pixels(canvas);
        draw_image(&mut canvas, x0, y0, height, width, scale, &images[i]);
        draw_border(&mut canvas, x0, y0, tile_w as u32, tile_h as u32, border);
        proof {
            assert forall|x: int, y: int| within((x, y), grid_w as int, grid_h as int) implies
                #[trigger] picture_pixels(canvas)[(x, y)] == grid_color(
                images@,
                height as int,
                width as int,
                preds@,
                targets@,
                n as int,
                i + 1,
                x,
                y,
            ) by {
                lemma_in_cell(x, column as int, cw);
                lemma_in_cell(y, row as int, ch);
                lemma_in_cell(x, x / cw, cw);
                assert(0 <= x / cw < columns) by (nonlinear_arith)
                    requires
                        0 <= x < columns * cw,
                        0 < cw,
                ;
                lemma_tile_index(i as int, columns as int, y / ch, x / cw);
                assert(before[(x, y)] == grid_color(
                    images@,
                    height as int,
                    width as int,
                    preds@,
                    targets@,
                    n as int,
                    i as int,
                    x,
                    y,
                ));
            }
        }
        i += 1;
    }
    let bytes = picture_bytes(canvas);
    let raster = Raster { width: grid_w, height: grid_h, bytes };
    proof {
        assert forall|x: int, y: int| within((x, y), grid_w as int, grid_h as int) implies
            #[trigger] raster.color(x, y) == grid_color(
            images@,
            height as int,
            width as int,
            preds@,
            targets@,
            n as int,
            n as int,
            x,
            y,
        ) by {
            assert(picture_pixels(canvas)[(x, y)] == grid_color(
                images@,
                height as int,
                width as int,
                preds@,
                targets@,
                n as int,
                n as int,
                x,
                y,
            ));
        }
    }
    Some(raster)
}

/// Every tile of a grid can be seen: its corner lies within the grid and tells
/// whether its prediction is right.
pub proof fn law_every_tile_is_shown(
    images: Seq<Vec<u8>>,
    height: int,
    width: int,
    preds: Seq<i64>,
    targets: Seq<usize>,
    n: int,
    i: int,
)
    requires
        0 <= i < n,
        height >= 1,
        width >= 1,
    ensures
        ({
            let scale = tile_scale(height, width);
            let x = (i % grid_columns(n)) * cell_side(width, scale) + 3;
            let y = (i / grid_columns(n)) * cell_side(height, scale) + 3;
            &&& within((x, y), grid_width(n, height, width), grid_height(n, height, width))
            &&& grid_color(images, height, width, preds, targets, n, n, x, y) == border_color(
                preds,
                targets[i],
                i,
            )
        }),
{
    let scale = tile_scale(height, width);
    let side = if height > width {
        height
    } else {
        width
    };
    if side <= 32 {
        assert(1 <= 32int / side) by (nonlinear_arith)
            requires
                1 <= side <= 32,
        ;
    }
    assert(width * scale >= 1 && height * scale >= 1) by (nonlinear_arith)
        requires
            width >= 1,
            height >= 1,
            scale >= 1,
    ;
    let columns = grid_columns(n);
    let (cw, ch) = (cell_side(width, scale), cell_side(height, scale));
    lemma_cell_within(i, n, columns, cw, ch);
    let (column, row) = (i % columns, i / columns);
    lemma_in_cell(column * cw + 3, column, cw);
    lemma_in_cell(row * ch + 3, row, ch);
}

// ---------------------------------------------------------------------------
// Laws of the files and the grid.
// ---------------------------------------------------------------------------

proof fn lemma_image_names(names: Seq<Seq<char>>)
    ensures
        forall|s: Seq<char>| #[trigger]
            image_names(names).contains(s) <==> names.contains(s) && model::names_image(s),
        names.no_duplicates() ==> image_names(names).no_duplicates(),
    decreases names.len(),
{
    if names.len() > 0 {
        let front = names.drop_last();
        let last = names.last();
        lemma_image_names(front);
        let (all, before) = (image_names(names), image_names(front));
        assert(names[names.len() - 1] == last);
        assert forall|s: Seq<char>| #[trigger] all.contains(s) <==> names.contains(s)
            && model::names_image(s) by {
            assert(names.contains(s) <==> front.contains(s) || s == last) by {
                if names.contains(s) && s != last {
                    let k = choose|k: int| 0 <= k < names.len() && names[k] == s;
                    assert(front[k] == s);
                }
                if front.contains(s) {
                    let k = choose|k: int| 0 <= k < front.len() && front[k] == s;
                    assert(names[k] == s);
                }
            }
            if model::names_image(last) {
                assert(all[before.len() as int] == last);
                if before.contains(s) {
                    let k = choose|k: int| 0 <= k < before.len() && before[k] == s;
                    assert(all[k] == s);
                }
                if all.contains(s) && s != last {
                    let k = choose|k: int| 0 <= k < all.len() && all[k] == s;
                    assert(before[k] == s);
                }
            }
        }
        if names.no_duplicates() {
            assert(front.no_duplicates());
            if before.contains(last) {
                let k = choose|k: int| 0 <= k < front.len() && front[k] == last;
                assert(names[k] == names[names.len() - 1]);
            }
            assert forall|i: int, j: int| 0 <= i < all.len() && 0 <= j < all.len() && i
                != j implies all[i] != all[j] by {
                if i < before.len() {
                    assert(before.contains(before[i]));
                }
                if j < before.len() {
                    assert(before.contains(before[j]));
                }
            }
        }
    }
}

proof fn lemma_sorted_same(sorted: Seq<Seq<char>>, list: Seq<Seq<char>>)
    requires
        text::is_sorted_from(sorted, list),
    ensures
        forall|s: Seq<char>| #[trigger] sorted.contains(s) <==> list.contains(s),
        list.no_duplicates() ==> sorted.no_duplicates(),
        sorted.len() == list.len(),
{
    broadcast use vstd::seq_lib::group_to_multiset_ensures;

    lemma_sorted_len(sorted, list);
    assert forall|s: Seq<char>| #[trigger] sorted.contains(s) <==> list.contains(s) by {
        assert(sorted.contains(s) <==> sorted.to_multiset().count(s) > 0);
        assert(list.contains(s) <==> list.to_multiset().count(s) > 0);
    }
    if list.no_duplicates() {
        list.lemma_multiset_has_no_duplicates();
        sorted.lemma_multiset_has_no_duplicates_conv();
    }
}

/// The files of the classes up to `k`.
proof fn lemma_by_class(own: Seq<Seq<Seq<char>>>, names: Seq<Seq<Seq<char>>>)
    requires
        sorts_each(own, names),
        names.len() <= usize::MAX,
    ensures
        forall|c: usize, s: Seq<char>| #[trigger]
            by_class(own).contains((c, s)) <==> c < names.len() && names[c as int].contains(s)
                && model::names_image(s),
        forall|i: int, j: int|
            0 <= i < j < by_class(own).len() ==> {
                let (a, b) = (#[trigger] by_class(own)[i], #[trigger] by_class(own)[j]);
                a.0 < b.0 || (a.0 == b.0 && text::text_le(a.1, b.1))
            },
        (forall|c: int| 0 <= c < names.len() ==> (#[trigger] names[c]).no_duplicates())
            ==> by_class(own).no_duplicates(),
    decreases own.len(),
{
    let all = by_class(own);
    if own.len() > 0 {
        let (front, rest) = (own.drop_last(), names.drop_last());
        let n = front.len() as int;
        assert forall|k: int| 0 <= k < rest.len() implies text::is_sorted_from(
            #[trigger] front[k],
            image_names(rest[k]),
        ) by {
            assert(front[k] == own[k]);
        }
        lemma_by_class(front, rest);
        let before = by_class(front);
        let mine = of_class(n as usize, own[n]);
        assert(own[n] == own.last());
        assert(all == before + mine);
        lemma_sorted_same(own[n], image_names(names[n]));
        lemma_image_names(names[n]);
        assert forall|i: int| 0 <= i < before.len() implies (#[trigger] before[i]).0 < n by {
            assert(before.contains((before[i].0, before[i].1)));
        }
        assert forall|c: usize, s: Seq<char>| #[trigger] all.contains((c, s)) <==> c < names.len()
            && names[c as int].contains(s) && model::names_image(s) by {
            assert(before.contains((c, s)) <==> c < n && rest[c as int].contains(s)
                && model::names_image(s));
            if c < n {
                assert(rest[c as int] == names[c as int]);
            }
            if all.contains((c, s)) {
                let k = choose|k: int| 0 <= k < all.len() && all[k] == (c, s);
                if k < before.len() {
                    assert(before[k] == (c, s));
                } else {
                    assert(mine[k - before.len()] == (c, s));
                    assert(own[n].contains(s));
                }
            }
            if before.contains((c, s)) {
                let k = choose|k: int| 0 <= k < before.len() && before[k] == (c, s);
                assert(all[k] == (c, s));
            }
            if c == n && own[n].contains(s) {
                let k = choose|k: int| 0 <= k < own[n].len() && own[n][k] == s;
                assert(all[before.len() + k] == (c, s));
            }
        }
        assert forall|i: int, j: int| 0 <= i < j < all.len() implies {
            let (a, b) = (#[trigger] all[i], #[trigger] all[j]);
            a.0 < b.0 || (a.0 == b.0 && text::text_le(a.1, b.1))
        } by {
            if j < before.len() {
                let (a, b) = (before[i], before[j]);
                assert(a.0 < b.0 || (a.0 == b.0 && text::text_le(a.1, b.1)));
            } else if i >= before.len() {
                let (p, q) = (i - before.len(), j - before.len());
                assert(text::text_le(own[n][p], own[n][q]));
            } else {
                assert(all[i] == before[i]);
            }
        }
        if forall|c: int| 0 <= c < names.len() ==> (#[trigger] names[c]).no_duplicates() {
            assert forall|c: int| 0 <= c < rest.len() implies (#[trigger] rest[c]).no_duplicates()
                by {
                assert(rest[c] == names[c]);
            }
            assert(names[n].no_duplicates());
            assert forall|i: int, j: int| 0 <= i < all.len() && 0 <= j < all.len() && i
                != j implies all[i] != all[j] by {
                if i < before.len() && j < before.len() {
                    assert(before[i] != before[j]);
                } else if i >= before.len() && j >= before.len() {
                    assert(own[n][i - before.len()] != own[n][j - before.len()]);
                } else if i < before.len() {
                    assert(all[i] == before[i]);
                } else {
                    assert(all[j] == before[j]);
                }
            }
        }
    }
}

/// The list of image files holds every image of every class directory and nothing
/// else, class by class and by name within a class; no file stands in it twice.
pub proof fn law_every_image_is_listed(
    files: Seq<(usize, Seq<char>)>,
    names: Seq<Seq<Seq<char>>>,
)
    requires
        lists_images(files, names),
        names.len() <= usize::MAX,
    ensures
        forall|c: usize, s: Seq<char>| #[trigger]
            files.contains((c, s)) <==> c < names.len() && names[c as int].contains(s)
                && model::names_image(s),
        forall|i: int, j: int|
            0 <= i < j < files.len() ==> {
                let (a, b) = (#[trigger] files[i], #[trigger] files[j]);
                a.0 < b.0 || (a.0 == b.0 && text::text_le(a.1, b.1))
            },
        (forall|c: int| 0 <= c < names.len() ==> (#[trigger] names[c]).no_duplicates())
            ==> files.no_duplicates(),
{
    let own = choose|own: Seq<Seq<Seq<char>>>| #[trigger]
        sorts_each(own, names) && files == by_class(own);
    lemma_by_class(own, names);
}

/// There is no image exactly where no name in any class directory is one of an
/// image.
pub proof fn law_no_image_at_all(names: Seq<Seq<Seq<char>>>)
    ensures
        no_images(names) <==> forall|c: int, s: Seq<char>|
            0 <= c < names.len() && #[trigger] names[c].contains(s) ==> !model::names_image(s),
{
    if no_images(names) {
        assert forall|c: int, s: Seq<char>|
            0 <= c < names.len() && #[trigger] names[c].contains(s) implies !model::names_image(
            s,
        ) by {
            lemma_image_names(names[c]);
            assert(image_names(names[c]).len() == 0);
            assert(!image_names(names[c]).contains(s));
        }
    }
    if forall|c: int, s: Seq<char>|
        0 <= c < names.len() && #[trigger] names[c].contains(s) ==> !model::names_image(s) {
        assert forall|c: int| 0 <= c < names.len() implies image_names(#[trigger] names[c]).len()
            == 0 by {
            lemma_image_names(names[c]);
            if image_names(names[c]).len() > 0 {
                let s = image_names(names[c])[0];
                assert(image_names(names[c]).contains(s));
                assert(names[c].contains(s));
            }
        }
    }
}

/// An image is enlarged as far as its longer side stays within 32 pixels, and not
/// at all where it is longer.
pub proof fn law_scale_is_the_largest(height: int, width: int)
    requires
        height >= 1,
        width >= 1,
    ensures
        ({
            let scale = tile_scale(height, width);
            &&& scale >= 1
            &&& height <= 32 && width <= 32 ==> height * scale <= 32 && width * scale <= 32
            &&& height <= 32 && width <= 32 ==> height * (scale + 1) > 32 || width * (scale + 1)
                > 32
            &&& height > 32 || width > 32 ==> scale == 1
        }),
{
    let side = if height > width {
        height
    } else {
        width
    };
    if side <= 32 {
        let scale = 32int / side;
        vstd::arithmetic::div_mod::lemma_fundamental_div_mod(32, side);
        vstd::arithmetic::div_mod::lemma_mod_bound(32, side);
        assert(side * scale <= 32 && side * (scale + 1) > 32 && scale >= 1) by (nonlinear_arith)
            requires
                32 == side * scale + 32int % side,
                0 <= 32int % side < side,
                1 <= side <= 32,
        ;
        assert(height * scale <= side * scale && width * scale <= side * scale) by (nonlinear_arith)
            requires
                height <= side,
                width <= side,
                scale >= 1,
        ;
    }
}

/// The tiles stand in rows of eight, or in one row where there are fewer; no row is
/// left empty.
pub proof fn law_rows_of_eight(n: int)
    requires
        n >= 1,
    ensures
        n <= 8 ==> grid_columns(n) == n && grid_rows(n) == 1,
        n > 8 ==> grid_columns(n) == 8,
        grid_columns(n) * grid_rows(n) >= n,
        grid_columns(n) * (grid_rows(n) - 1) < n,
{
    let c = grid_columns(n);
    let t = n + c - 1;
    vstd::arithmetic::div_mod::lemma_fundamental_div_mod(t, c);
    vstd::arithmetic::div_mod::lemma_mod_bound(t, c);
    let r = t / c;
    assert(c * (r - 1) == c * r - c) by (nonlinear_arith);
    if n <= 8 {
        assert(r == 1) by (nonlinear_arith)
            requires
                n >= 1,
                c == n,
                t == n + c - 1,
                t == c * r + t % c,
                0 <= t % c < c,
        ;
    }
}

/// A tile shows its image: every place of the tile that is not on its border has the
/// level of the pixel that it enlarges, as a gray.
pub proof fn law_tiles_show_their_images(
    images: Seq<Vec<u8>>,
    height: int,
    width: int,
    preds: Seq<i64>,
    targets: Seq<usize>,
    n: int,
    i: int,
    px: int,
    py: int,
    dx: int,
    dy: int,
)
    requires
        0 <= i < n,
        0 <= px < width,
        0 <= py < height,
        0 <= dx < tile_scale(height, width),
        0 <= dy < tile_scale(height, width),
        ({
            let scale = tile_scale(height, width);
            &&& 2 <= px * scale + dx < width * scale - 2
            &&& 2 <= py * scale + dy < height * scale - 2
        }),
    ensures
        ({
            let scale = tile_scale(height, width);
            let columns = if n < 8 {
                n
            } else {
                8
            };
            let x = (i % columns) * (width * scale + 6) + 3 + px * scale + dx;
            let y = (i / columns) * (height * scale + 6) + 3 + py * scale + dy;
            let level = images[i]@[py * width + px];
            &&& within((x, y), grid_width(n, height, width), grid_height(n, height, width))
            &&& grid_color(images, height, width, preds, targets, n, n, x, y) == (
                level,
                level,
                level,
            )
        }),
{
    let scale = tile_scale(height, width);
    let columns = grid_columns(n);
    let (cw, ch) = (cell_side(width, scale), cell_side(height, scale));
    let (tx, ty) = (px * scale + dx, py * scale + dy);
    assert(width * scale >= 1 && height * scale >= 1) by (nonlinear_arith)
        requires
            width >= 1,
            height >= 1,
            scale >= 1,
    ;
    lemma_cell_within(i, n, columns, cw, ch);
    let (column, row) = (i % columns, i / columns);
    let x = column * cw + 3 + px * scale + dx;
    let y = row * ch + 3 + py * scale + dy;
    lemma_in_cell(x, column, cw);
    lemma_in_cell(y, row, ch);
    lemma_tile_index(i, columns, row, column);
    vstd::arithmetic::div_mod::lemma_fundamental_div_mod_converse(tx, scale, px, dx);
    vstd::arithmetic::div_mod::lemma_fundamental_div_mod_converse(ty, scale, py, dy);
}

/// The border of a tile is green where its prediction is its class, and red where
/// it is not or is missing; the ground between the tiles is dark.
pub proof fn law_colors_tell(
    preds: Seq<i64>,
    target: usize,
    i: int,
    height: int,
    width: int,
    levels: Seq<u8>,
    x: int,
    y: int,
)
    requires
        0 <= i,
        target <= i64::MAX,
    ensures
        border_color(preds, target, i) == (52u8, 168u8, 108u8) <==> i < preds.len() && preds[i]
            == target as int,
        i >= preds.len() || preds[i] != target as int ==> border_color(preds, target, i) == (
            220u8,
            76u8,
            76u8,
        ),
        ({
            let scale = tile_scale(height, width);
            let border = border_color(preds, target, i);
            let (tw, th) = (width * scale, height * scale);
            &&& 0 <= x < tw && 0 <= y < th && (x < 2 || y < 2 || x >= tw - 2 || y >= th - 2)
                ==> tile_color(levels, border, height, width, x, y) == border
            &&& tw >= 4 && th >= 4 && !(0 <= x < tw && 0 <= y < th) ==> tile_color(
                levels,
                border,
                height,
                width,
                x,
                y,
            ) == (24u8, 24u8, 28u8)
        }),
{
}

/// The example patterns are what their names say: the first has the same rows
/// everywhere, the second the same columns, the third repeats along the diagonal,
/// and in the fourth neighbouring squares differ. No stripe pattern is plain.
pub proof fn law_patterns(state: u64, x: int, y: int, other: int)
    requires
        0 <= x,
        0 <= y,
    ensures
        3 <= period_of(state) <= 5,
        0 <= phase_of(state) < period_of(state),
        2 <= square_of(state) <= 4,
        is_bright(state, 0, x, y) == is_bright(state, 0, other, y),
        is_bright(state, 1, x, y) == is_bright(state, 1, x, other),
        is_bright(state, 0, x, y) == is_bright(state, 1, y, x),
        is_bright(state, 2, x + 1, y) == is_bright(state, 2, x, y + 1),
        is_bright(state, 2, x, 0) == is_bright(state, 1, x, 0),
        is_bright(state, 1, x + period_of(state), y) == is_bright(state, 1, x, y),
        is_bright(state, 3, x + square_of(state), y) == !is_bright(state, 3, x, y),
        is_bright(state, 3, x, y + square_of(state)) == !is_bright(state, 3, x, y),
        is_bright(state, 3, 0, 0),
        is_bright(state, 1, period_of(state) - phase_of(state), y),
        !is_bright(state, 1, period_of(state) - phase_of(state) + period_of(state) - 1, y),
{
    let (p, f, q) = (period_of(state), phase_of(state), square_of(state));
    assert(0 <= f < p) by {
        vstd::arithmetic::div_mod::lemma_mod_bound(rng::draw(state, 1) as int, p);
    }
    vstd::arithmetic::div_mod::lemma_mod_add_multiples_vanish(x + f, p);
    assert((x + p + f) % p == (x + f) % p);
    vstd::arithmetic::div_mod::lemma_div_plus_one(x, q);
    vstd::arithmetic::div_mod::lemma_div_plus_one(y, q);
    assert(0int / q == 0) by (nonlinear_arith)
        requires
            q > 0,
    ;
    vstd::arithmetic::div_mod::lemma_mod_self_0(p);
    vstd::arithmetic::div_mod::lemma_mod_add_multiples_vanish(p - 1, p);
    vstd::arithmetic::div_mod::lemma_small_mod((p - 1) as nat, p as nat);
    assert((p - f + p - 1 + f) % p == p - 1);
}

/// The example images are numbered within their class, in three digits, and the
/// classes have the names of their patterns.
pub proof fn law_example_names(i: nat)
    requires
        i < 1000,
    ensures
        example_name(i).len() == 11,
        example_name(i).take(4) == "img_"@,
        text::value_of(example_name(i).subrange(4, 7)) == i,
        example_name(i).skip(7) == ".png"@,
        example_class(0) == "horizontal"@,
        example_class(1) == "vertical"@,
        example_class(2) == "diagonal"@,
        example_class(3) == "checker"@,
{
    reveal_strlit("img_");
    reveal_strlit(".png");
    reveal_with_fuel(text::ten_to, 4);
    text::lemma_zero_padded_fixed(i, 3);
    text::law_padding_keeps_the_number(i, 3);
    let name = example_name(i);
    assert(name.take(4) =~= "img_"@);
    assert(name.subrange(4, 7) =~= text::zero_padded(i, 3));
    assert(name.skip(7) =~= ".png"@);
}

/// Each example image takes up the random numbers where the one before stopped.
pub proof fn law_examples_follow_one_another(j: int)
    requires
        j >= 0,
    ensures
        example_state(0) == 7,
        example_state(j + 1) == rng::advance(example_state(j), 3 + 24 * 24),
{
    rng::lemma_advance(EXAMPLE_SEED, (j * EXAMPLE_DRAWS) as nat, EXAMPLE_DRAWS as nat);
    assert(j * EXAMPLE_DRAWS >= 0 && j * EXAMPLE_DRAWS + EXAMPLE_DRAWS == (j + 1) * EXAMPLE_DRAWS)
        by (nonlinear_arith)
        requires
            j >= 0,
    ;
    assert(0 * EXAMPLE_DRAWS as int == 0);
}

/// An image of the right size is taken as it is, and any other is resampled from
/// its own levels and size to the size of the first.
pub proof fn law_images_are_fitted(d: Decoded, width: u32, height: u32)
    ensures
        d.width == width && d.height == height ==> d.fitted(width, height) == d.levels@,
        d.width != width || d.height != height ==> d.fitted(width, height) == resized(
            d.levels@,
            d.width,
            d.height,
            width,
            height,
        ),
{
}

/// Images of ordinary sizes can always be resampled and shown in a grid.
pub proof fn law_ordinary_images_fit(
    width: u32,
    height: u32,
    new_width: u32,
    new_height: u32,
    n: int,
)
    requires
        1 <= width <= 0x1000,
        1 <= height <= 0x1000,
        1 <= new_width <= 0x1000,
        1 <= new_height <= 0x1000,
        1 <= n <= 16,
    ensures
        can_resize(width, height, new_width, new_height),
        grid_fits(n, height as int, width as int),
{
    let (w, h, nw, nh) = (width as int, height as int, new_width as int, new_height as int);
    assert(16 * w * nh <= 0x1000_0000 && nw * nh <= 0x100_0000) by (nonlinear_arith)
        requires
            1 <= w <= 0x1000,
            1 <= nw <= 0x1000,
            1 <= nh <= 0x1000,
    ;
    let scale = tile_scale(h, w);
    law_scale_is_the_largest(h, w);
    let (tw, th) = (w * scale, h * scale);
    assert(0 <= tw <= 0x1000 && 0 <= th <= 0x1000) by {
        if h <= 32 && w <= 32 {
            assert(0 <= tw && 0 <= th) by (nonlinear_arith)
                requires
                    tw == w * scale,
                    th == h * scale,
                    w >= 1,
                    h >= 1,
                    scale >= 1,
            ;
        } else {
            assert(scale == 1);
            assert(tw == w && th == h) by (nonlinear_arith)
                requires
                    tw == w * scale,
                    th == h * scale,
                    scale == 1,
            ;
        }
    }
    law_rows_of_eight(n);
    let (c, r) = (grid_columns(n), grid_rows(n));
    assert(r <= 2) by (nonlinear_arith)
        requires
            c * (r - 1) < n,
            1 <= n <= 16,
            c == if n < 8 {
                n
            } else {
                8
            },
    ;
    let (gw, gh) = (c * (tw + 6), r * (th + 6));
    assert(r >= 1) by (nonlinear_arith)
        requires
            c * r >= n,
            n >= 1,
            c >= 1,
    ;
    assert(0 <= gw <= 0x8030 && 0 <= gh <= 0x200C) by (nonlinear_arith)
        requires
            gw == c * (tw + 6),
            gh == r * (th + 6),
            1 <= c <= 8,
            1 <= r <= 2,
            0 <= tw <= 0x1000,
            0 <= th <= 0x1000,
    ;
    assert(3 * gw * gh <= 0x7FFF_FFFF) by (nonlinear_arith)
        requires
            0 <= gw <= 0x8030,
            0 <= gh <= 0x200C,
    ;
}

/// A grid shows the first images, as many as there are and at most as many as were
/// asked for.
pub proof fn law_tiles_are_the_first_images(images: int, n_max: int)
    requires
        images >= 0,
        n_max >= 0,
    ensures
        tile_count(images, n_max) <= images,
        tile_count(images, n_max) <= n_max,
        tile_count(images, n_max) == images || tile_count(images, n_max) == n_max,
{
}

/// Where no tile stands, the grid shows its ground.
pub proof fn law_empty_cells_show_the_ground(
    images: Seq<Vec<u8>>,
    height: int,
    width: int,
    preds: Seq<i64>,
    targets: Seq<usize>,
    n: int,
    x: int,
    y: int,
)
    requires
        ({
            let scale = tile_scale(height, width);
            let columns = if n < 8 {
                n
            } else {
                8
            };
            (y / (height * scale + 6)) * columns + x / (width * scale + 6) >= n
        }),
    ensures
        grid_color(images, height, width, preds, targets, n, n, x, y) == (24u8, 24u8, 28u8),
{
}

} // verus!
