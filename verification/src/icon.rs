//! The icon of the window.
use vstd::prelude::*;

verus! {

/// A picture: four bytes for each of its pixels, for red, green, blue and opacity.
pub struct Icon {
    pub rgba: Vec<u8>,
    pub width: u32,
    pub height: u32,
}

/// A picture as a value.
pub struct Picture {
    pub rgba: Seq<u8>,
    pub width: u32,
    pub height: u32,
}

impl View for Icon {
    type V = Picture;

    open spec fn view(&self) -> Picture {
        Picture { rgba: self.rgba@, width: self.width, height: self.height }
    }
}

/// Whether a picture has the bytes of all its pixels.
pub open spec fn has_pixels(p: Picture) -> bool {
    p.rgba.len() >= 4 * p.width * p.height
}

/// The picture of an icon that may not be there.
pub open spec fn picture(icon: Option<Icon>) -> Option<Picture> {
    match icon {
        Some(i) => Some(i@),
        None => None,
    }
}

/// The first of some icons that is there.
pub open spec fn first_icon(icons: Seq<Option<Icon>>) -> Option<Picture>
    decreases icons.len(),
{
    if icons.len() == 0 {
        None
    } else if icons[0] is Some {
        picture(icons[0])
    } else {
        first_icon(icons.drop_first())
    }
}

/// The bytes that a PNG file starts with.
pub open spec fn png_signature() -> Seq<u8> {
    seq![137u8, 80, 78, 71, 13, 10, 26, 10]
}

/// The bytes that an ICO file starts with.
pub open spec fn ico_signature() -> Seq<u8> {
    seq![0u8, 0, 1, 0]
}

/// The name of the chunk of a PNG file that holds its palette.
pub open spec fn palette_name() -> Seq<u8> {
    seq![80u8, 76, 84, 69]
}

/// The name of the chunks of a PNG file that hold its pixels.
pub open spec fn pixels_name() -> Seq<u8> {
    seq![73u8, 68, 65, 84]
}

/// Whether some bytes stand in a file at a position.
pub open spec fn stand_at(data: Seq<u8>, at: int, bytes: Seq<u8>) -> bool {
    at + bytes.len() <= data.len() && data.subrange(at, at + bytes.len()) == bytes
}

/// Whether the palette is made of whole colours, of three bytes each, in a row of PNG chunks that starts
/// at a position. A chunk has four bytes for its length, four for its name, its contents and four more.
/// A palette counts where it comes before the pixels, and without one there is nothing that could be
/// amiss.
pub open spec fn chunks_whole(data: Seq<u8>, at: int) -> bool
    decreases data.len() - at,
{
    if at + 8 > data.len() {
        true
    } else {
        let length = crate::wire::be_value(data.subrange(at, at + 4));
        if stand_at(data, at + 4, palette_name()) {
            length % 3 == 0
        } else if stand_at(data, at + 4, pixels_name()) || at + 12 + length > data.len() {
            true
        } else {
            chunks_whole(data, at + 12 + length)
        }
    }
}

/// Whether the PNG file that starts at a position can be given colours: it has no palette to take them
/// from (the colour type, 17 bytes behind the signature, is not the indexed one), or one of whole colours.
pub open spec fn colours_whole(data: Seq<u8>, at: int) -> bool {
    at + 25 < data.len() && data[at + 25] == 3 ==> chunks_whole(data, at + 8)
}

/// Whether no indexed PNG file in `data` has a palette with a part of a colour: `data` can be such a file
/// itself, or an ICO file that holds some.
pub open spec fn palettes_whole(data: Seq<u8>) -> bool {
    if stand_at(data, 0, png_signature()) {
        colours_whole(data, 0)
    } else if stand_at(data, 0, ico_signature()) {
        forall|at: int|
            0 <= at && #[trigger] stand_at(data, at, png_signature()) ==> colours_whole(data, at)
    } else {
        true
    }
}

/// Whether some bytes stand in a file at a position.
fn bytes_stand_at(data: &[u8], at: usize, bytes: &[u8]) -> (r: bool)
    requires
        at <= data@.len(),
    ensures
        r == stand_at(data@, at as int, bytes@),
{
    let end: usize = data.len();
    if end - at < bytes.len() {
        return false;
    }
    let ghost found = data@.subrange(at as int, at + bytes@.len());
    let mut n: usize = 0;
    while n < bytes.len()
        invariant
            n <= bytes@.len(),
            at + bytes@.len() <= data@.len(),
            end == data@.len(),
            found == data@.subrange(at as int, at + bytes@.len()),
            forall|j: int| 0 <= j < n ==> found[j] == bytes@[j],
        decreases bytes.len() - n,
    {
        assert(found[n as int] == data@[at + n]);
        if data[at + n] != bytes[n] {
            return false;
        }
        n = n + 1;
    }
    assert(found =~= bytes@);
    true
}

/// Whether the palette is made of whole colours, in a row of PNG chunks that starts at a position.
fn has_whole_chunks(data: &[u8], from: usize) -> (r: bool)
    requires
        from <= data@.len(),
    ensures
        r == chunks_whole(data@, from as int),
{
    let palette: Vec<u8> = vec![80u8, 76, 84, 69];
    let pixels: Vec<u8> = vec![73u8, 68, 65, 84];
    assert(palette@ =~= palette_name());
    assert(pixels@ =~= pixels_name());
    let end: usize = data.len();
    let mut at: usize = from;
    while end - at >= 8
        invariant
            end == data@.len(),
            at <= end,
            palette@ == palette_name(),
            pixels@ == pixels_name(),
            chunks_whole(data@, from as int) == chunks_whole(data@, at as int),
        decreases end - at,
    {
        let length: u32 = crate::wire::value_be_u32(data, at);
        if bytes_stand_at(data, at + 4, palette.as_slice()) {
            return length % 3 == 0;
        }
        if bytes_stand_at(data, at + 4, pixels.as_slice()) {
            return true;
        }
        let rest: usize = end - at;
        if rest < 12 || rest - 12 < length as usize {
            return true;
        }
        at = at + 12 + length as usize;
    }
    true
}

/// Whether the PNG file that starts at a position can be given colours.
fn has_whole_colours(data: &[u8], at: usize) -> (r: bool)
    requires
        at + 8 <= data@.len(),
    ensures
        r == colours_whole(data@, at as int),
{
    if data.len() - at > 25 && data[at + 25] == 3 {
        has_whole_chunks(data, at + 8)
    } else {
        true
    }
}

/// Whether no indexed PNG file in `data`, which can be one or an ICO file that holds some, has a palette
/// with a part of a colour.
pub fn has_whole_palettes(data: &[u8]) -> (r: bool)
    ensures
        r == palettes_whole(data@),
{
    let png: Vec<u8> = vec![137u8, 80, 78, 71, 13, 10, 26, 10];
    let ico: Vec<u8> = vec![0u8, 0, 1, 0];
    assert(png@ =~= png_signature());
    assert(ico@ =~= ico_signature());
    if bytes_stand_at(data, 0, png.as_slice()) {
        return has_whole_colours(data, 0);
    }
    if !bytes_stand_at(data, 0, ico.as_slice()) {
        return true;
    }
    let end: usize = data.len();
    let mut at: usize = 0;
    while at < end
        invariant
            end == data@.len(),
            at <= end,
            png@ == png_signature(),
            !stand_at(data@, 0, png_signature()),
            stand_at(data@, 0, ico_signature()),
            forall|j: int|
                0 <= j < at && #[trigger] stand_at(data@, j, png_signature()) ==> colours_whole(
                    data@,
                    j,
                ),
        decreases end - at,
    {
        if bytes_stand_at(data, at, png.as_slice()) && !has_whole_colours(data, at) {
            return false;
        }
        at = at + 1;
    }
    true
}

/// Whether `image::load_from_memory`, brought to eight bits for each of red, green, blue and opacity, can
/// make a result of some bytes. It is a relation and no function: which bytes are a picture, and what its
/// pixels are, also rests on the decoders that the process has registered, on the memory that is there
/// and on the width of an address.
pub uninterp spec fn can_decode_to(data: Seq<u8>, result: Option<Picture>) -> bool;

/// Calls `image::load_from_memory`, and on what it gives `DynamicImage::to_rgba8`,
/// `ImageBuffer::dimensions` and `ImageBuffer::into_raw`: the result is one that these bytes can have, and
/// a picture has at least four bytes for each pixel. (Through a registered decoder there can be more.)
/// Which of the results that the bytes can have it is, is left unsaid.
///
/// The PNG decoder reads a palette three bytes at a time and panics where the last colour is cut short,
/// so such bytes are left out. Like any allocation, that of the pixels can find no memory.
#[verifier::external_body]
fn icon_decode(data: &[u8]) -> (icon: Option<Icon>)
    requires
        palettes_whole(data@),
    ensures
        can_decode_to(data@, picture(icon)),
        icon matches Some(i) ==> has_pixels(i@),
{
    match image::load_from_memory(data) {
        Ok(decoded) => {
            let buffer = decoded.to_rgba8();
            let (width, height) = buffer.dimensions();
            Some(Icon { rgba: buffer.into_raw(), width, height })
        },
        Err(_) => None,
    }
}

/// The first of some icons that is there.
pub fn pick_icon(icons: Vec<Option<Icon>>) -> (icon: Option<Icon>)
    ensures
        picture(icon) == first_icon(icons@),
{
    let mut rest = icons;
    assert(rest@ =~= icons@);
    while rest.len() > 0
        invariant
            first_icon(icons@) == first_icon(rest@),
        decreases rest.len(),
    {
        let ghost before = rest@;
        let icon = rest.remove(0);
        assert(rest@ =~= before.drop_first());
        if icon.is_some() {
            return icon;
        }
    }
    None
}

proof fn lemma_first_icon(icons: Seq<Option<Icon>>)
    ensures
        match first_icon(icons) {
            Some(p) => exists|j: int|
                0 <= j < icons.len() && picture(#[trigger] icons[j]) == Some(p) && forall|k: int|
                    0 <= k < j ==> (#[trigger] icons[k]) is None,
            None => forall|k: int| 0 <= k < icons.len() ==> (#[trigger] icons[k]) is None,
        },
    decreases icons.len(),
{
    if icons.len() > 0 && icons[0] is None {
        let rest = icons.drop_first();
        lemma_first_icon(rest);
        match first_icon(rest) {
            Some(p) => {
                let j = choose|j: int|
                    0 <= j < rest.len() && picture(#[trigger] rest[j]) == Some(p) && forall|k: int|
                        0 <= k < j ==> (#[trigger] rest[k]) is None;
                assert(picture(icons[j + 1]) == Some(p));
                assert forall|k: int| 0 <= k < j + 1 implies (#[trigger] icons[k]) is None by {
                    if k > 0 {
                        assert(rest[k - 1] is None);
                    }
                }
            },
            None => {
                assert forall|k: int| 0 <= k < icons.len() implies (#[trigger] icons[k]) is None by {
                    if k > 0 {
                        assert(rest[k - 1] is None);
                    }
                }
            },
        }
    } else if icons.len() > 0 {
        assert(picture(icons[0]) == first_icon(icons));
    }
}

/// The icon that is picked is there, and none before it is; where none is picked, none is there.
pub proof fn law_first_icon(icons: Seq<Option<Icon>>)
    ensures
        match first_icon(icons) {
            Some(p) => exists|j: int|
                0 <= j < icons.len() && picture(#[trigger] icons[j]) == Some(p) && forall|k: int|
                    0 <= k < j ==> (#[trigger] icons[k]) is None,
            None => forall|k: int| 0 <= k < icons.len() ==> (#[trigger] icons[k]) is None,
        },
{
    lemma_first_icon(icons);
}

/// Whether a file can give a result. One that is not there gives no picture, nor does one with a part of
/// a colour in a palette; of any other the decoder makes what it can make of its bytes.
pub open spec fn can_give(file: Option<Vec<u8>>, result: Option<Picture>) -> bool {
    match file {
        Some(data) => if palettes_whole(data@) {
            &&& can_decode_to(data@, result)
            &&& result matches Some(p) ==> has_pixels(p)
        } else {
            result is None
        },
        None => result is None,
    }
}

/// The icon in the first of some files that can be decoded. A file that could not be read is not there,
/// and the files after the first that can be decoded are not looked at.
pub fn load_icon_data(files: &Vec<Option<Vec<u8>>>) -> (icon: Option<Icon>)
    ensures
        match icon {
            Some(i) => exists|n: int|
                0 <= n < files@.len() && #[trigger] can_give(files@[n], Some(i@)) && forall|j: int|
                    0 <= j < n ==> #[trigger] can_give(files@[j], None),
            None => forall|j: int| 0 <= j < files@.len() ==> #[trigger] can_give(files@[j], None),
        },
{
    let mut icons: Vec<Option<Icon>> = Vec::new();
    let mut found: bool = false;
    while !found && icons.len() < files.len()
        invariant
            icons@.len() <= files@.len(),
            forall|j: int|
                0 <= j < icons@.len() ==> can_give(files@[j], picture(#[trigger] icons@[j])),
            forall|j: int| 0 <= j < icons@.len() - 1 ==> (#[trigger] icons@[j]) is None,
            found == (icons@.len() > 0 && icons@.last() is Some),
        decreases files.len() - icons.len(),
    {
        let icon = match &files[icons.len()] {
            Some(data) => if has_whole_palettes(data.as_slice()) {
                icon_decode(data.as_slice())
            } else {
                None
            },
            None => None,
        };
        found = icon.is_some();
        icons.push(icon);
    }
    proof {
        lemma_first_icon(icons@);
    }
    let ghost tried = icons@;
    let icon = pick_icon(icons);
    proof {
        assert forall|j: int| 0 <= j < tried.len() && tried[j] is None implies #[trigger] can_give(
            files@[j],
            None,
        ) by {
            assert(picture(tried[j]) is None);
        }
        if icon is Some {
            assert(can_give(files@[tried.len() - 1], picture(tried[tried.len() - 1])));
        }
    }
    icon
}

/// A chunk of a PNG file.
pub open spec fn chunk_bytes(name: Seq<u8>, contents: Seq<u8>, check: Seq<u8>) -> Seq<u8> {
    crate::wire::be_bytes(contents.len(), 4) + name + contents + check
}

/// A palette chunk in front of the pixels is whole exactly if its length is a multiple of three; behind the
/// pixels nothing is looked at; and any other chunk is passed over, whatever it holds.
pub proof fn law_chunks_of_a_picture(
    front: Seq<u8>,
    name: Seq<u8>,
    contents: Seq<u8>,
    check: Seq<u8>,
    rest: Seq<u8>,
)
    requires
        name.len() == 4,
        contents.len() <= u32::MAX,
        check.len() == 4,
    ensures
        ({
            let data = front + chunk_bytes(name, contents, check) + rest;
            let at = front.len() as int;
            &&& name == seq![0x50u8, 0x4c, 0x54, 0x45] ==> chunks_whole(data, at) == (contents.len() % 3
                == 0)
            &&& name == seq![0x49u8, 0x44, 0x41, 0x54] ==> chunks_whole(data, at)
            &&& name != seq![0x50u8, 0x4c, 0x54, 0x45] && name != seq![0x49u8, 0x44, 0x41, 0x54]
                ==> chunks_whole(data, at) == chunks_whole(data, at + 12 + contents.len())
        }),
        chunks_whole(front, front.len() as int),
{
    let chunk = chunk_bytes(name, contents, check);
    let data = front + chunk + rest;
    let at = front.len() as int;
    crate::wire::lemma_byte_ranges();
    crate::wire::lemma_be_bytes_len(contents.len(), 4);
    crate::wire::lemma_be_round_trip(contents.len(), 4);
    assert(data.subrange(at, at + 4) =~= crate::wire::be_bytes(contents.len(), 4));
    assert(data.subrange(at + 4, at + 8) =~= name);
}

/// What a decoder is handed: a PNG file that takes its colours from a palette has to have whole ones, and
/// so has every one that an ICO file holds. All other files are handed over as they are.
pub proof fn law_palettes(data: Seq<u8>, at: int)
    requires
        0 <= at,
        at + 26 <= data.len(),
    ensures
        ({
            let png = seq![0x89u8, 0x50, 0x4e, 0x47, 0x0d, 0x0a, 0x1a, 0x0a];
            let is_png = data.take(8) == png;
            let is_ico = data.take(4) == seq![0u8, 0, 1, 0];
            &&& is_png && data[25] == 3 ==> palettes_whole(data) == chunks_whole(data, 8)
            &&& is_png && data[25] != 3 ==> palettes_whole(data)
            &&& !is_png && !is_ico ==> palettes_whole(data)
            &&& is_ico && data.subrange(at, at + 8) == png && data[at + 25] == 3 && palettes_whole(data)
                ==> chunks_whole(data, at + 8)
        }),
{
    let png = seq![0x89u8, 0x50, 0x4e, 0x47, 0x0d, 0x0a, 0x1a, 0x0a];
    assert(png =~= png_signature());
    assert(data.take(8) =~= data.subrange(0, 8));
    assert(data.take(4) =~= data.subrange(0, 4));
    if data.take(4) == seq![0u8, 0, 1, 0] {
        assert(data.take(4)[0] == data[0]);
        if stand_at(data, 0, png_signature()) {
            assert(data.subrange(0, 8)[0] == data[0]);
        }
        if data.subrange(at, at + 8) == png {
            assert(stand_at(data, at, png_signature()));
        }
    }
}

/// A file that is not there gives no icon, nor does one that is not handed to the decoder; what the decoder
/// makes of any other is what the file gives.
pub proof fn law_what_a_file_gives(data: Vec<u8>, icon: Icon)
    ensures
        !can_give(None, Some(icon@)),
        can_give(None, None),
        !palettes_whole(data@) ==> !can_give(Some(data), Some(icon@)) && can_give(Some(data), None),
        palettes_whole(data@) ==> can_give(Some(data), None) == can_decode_to(data@, None),
        palettes_whole(data@) && icon.rgba@.len() >= 4 * (icon.width * icon.height) ==> can_give(
            Some(data),
            Some(icon@),
        ) == can_decode_to(data@, picture(Some(icon))),
        can_give(Some(data), Some(icon@)) ==> icon.rgba@.len() >= 4 * (icon.width * icon.height),
{
    assert(4 * icon.width * icon.height == 4 * (icon.width * icon.height)) by (nonlinear_arith);
}

} // verus!
