//! What the tray icon shows of the sync.

use vstd::prelude::*;

verus! {

/// How the sync is going.
#[derive(Debug, Clone, Copy, PartialEq, Eq, Structural)]
pub enum SyncState {
    Idle,
    Syncing,
    Synced,
    WaitingForDevice,
}

impl Default for SyncState {
    fn default() -> (state: Self)
        ensures
            state == SyncState::Idle,
    {
        SyncState::Idle
    }
}

/// The state that was shown last.
#[derive(Debug, Clone, Copy, PartialEq, Eq)]
pub struct SyncStatus(pub SyncState);

impl Default for SyncStatus {
    fn default() -> (status: Self)
        ensures
            status.0 == SyncState::Idle,
    {
        SyncStatus(SyncState::Idle)
    }
}

/// Records a state, and tells whether it differs from the last one, so that the tray has to
/// change.
pub fn set(status: &mut SyncStatus, state: SyncState) -> (changed: bool)
    ensures
        final(status).0 == state,
        changed == (old(status).0 != state),
{
    if status.0 == state {
        false
    } else {
        status.0 = state;
        true
    }
}

/// The state that was shown last.
pub fn get(status: &SyncStatus) -> (state: SyncState)
    ensures
        state == status.0,
{
    status.0
}

/// The words for a state.
pub open spec fn state_words(state: SyncState) -> Seq<char> {
    match state {
        SyncState::Idle => "Clippy — sync is not configured"@,
        SyncState::Syncing => "Clippy — syncing"@,
        SyncState::Synced => "Clippy — synced"@,
        SyncState::WaitingForDevice => "Clippy — waiting for a device"@,
    }
}

/// The words that the tray shows for a state.
pub fn tooltip(state: SyncState) -> (words: &'static str)
    ensures
        words@ == state_words(state),
{
    match state {
        SyncState::Idle => "Clippy — sync is not configured",
        SyncState::Syncing => "Clippy — syncing",
        SyncState::Synced => "Clippy — synced",
        SyncState::WaitingForDevice => "Clippy — waiting for a device",
    }
}

/// One pixel.
#[derive(Debug, Clone, Copy, PartialEq, Eq, Structural)]
pub struct Pixel {
    pub red: u8,
    pub green: u8,
    pub blue: u8,
    pub alpha: u8,
}

/// The opaque black that a template icon is painted with. Its alpha is the mask; the desktop
/// chooses the color.
pub open spec fn ink() -> Pixel {
    Pixel { red: 0, green: 0, blue: 0, alpha: 255 }
}

/// A picture, row by row from the top.
#[derive(Debug, Clone, PartialEq, Eq)]
pub struct Icon {
    pub width: u32,
    pub height: u32,
    pub pixels: Vec<Pixel>,
}

impl Icon {
    /// There is a pixel for each place, and no side is empty.
    pub open spec fn complete(self) -> bool {
        &&& 0 < self.width
        &&& 0 < self.height
        &&& self.pixels@.len() == self.width * self.height
    }

    /// The badge can be measured in 32 bits: neither the square of its radius nor its right edge
    /// exceeds them.
    pub open spec fn measurable(self) -> bool {
        &&& self.complete()
        &&& radius_of(self.width as int, self.height as int) <= 65_535
        &&& self.width + radius_of(self.width as int, self.height as int) <= u32::MAX
    }

    /// The pixel at a place.
    pub open spec fn at(self, x: int, y: int) -> Pixel {
        self.pixels@[y * self.width + x]
    }

    /// The place lies in the picture.
    pub open spec fn has(self, x: int, y: int) -> bool {
        0 <= x < self.width && 0 <= y < self.height
    }
}

pub open spec fn smaller(a: int, b: int) -> int {
    if a < b {
        a
    } else {
        b
    }
}

pub open spec fn at_least(value: int, bound: int) -> int {
    if value > bound {
        value
    } else {
        bound
    }
}

/// The radius of the badge: a ninth of the shorter side, but at least one.
pub open spec fn radius_of(width: int, height: int) -> int {
    at_least(smaller(width, height) / 9, 1)
}

/// The radius of the badge.
pub fn badge_radius(icon: &Icon) -> (radius: u32)
    ensures
        radius == radius_of(icon.width as int, icon.height as int),
{
    let side: u32 = if icon.width < icon.height {
        icon.width
    } else {
        icon.height
    };
    if side / 9 > 1 {
        side / 9
    } else {
        1
    }
}

/// Where the badge sits along one side: its own radius and one pixel from the end.
pub open spec fn center_along(side: int, radius: int) -> int {
    at_least(side - (radius + 1), 0)
}

/// The center of the badge: in the lower right corner.
pub fn badge_center(icon: &Icon, radius: u32) -> (center: (u32, u32))
    requires
        radius < u32::MAX,
    ensures
        center.0 == center_along(icon.width as int, radius as int),
        center.1 == center_along(icon.height as int, radius as int),
{
    (icon.width.saturating_sub(radius + 1), icon.height.saturating_sub(radius + 1))
}

/// The square of the distance between two places.
pub open spec fn distance(x: int, y: int, center_x: int, center_y: int) -> int {
    (x - center_x) * (x - center_x) + (y - center_y) * (y - center_y)
}

/// The inner radius of a ring: half the outer one less, but at least one less.
pub open spec fn inner_radius(radius: int) -> int {
    at_least(radius - at_least(radius / 2, 1), 0)
}

/// The place is painted: within the circle, and for a ring not within the inner one.
pub open spec fn painted(
    x: int,
    y: int,
    center_x: int,
    center_y: int,
    radius: int,
    ring: bool,
) -> bool {
    &&& distance(x, y, center_x, center_y) <= radius * radius
    &&& ring ==> distance(x, y, center_x, center_y) >= inner_radius(radius) * inner_radius(radius)
}

proof fn lemma_index(width: int, height: int, x: int, y: int)
    requires
        0 <= x < width,
        0 <= y < height,
    ensures
        0 <= y * width + x < width * height,
{
    assert(0 <= y * width) by (nonlinear_arith)
        requires
            0 <= y,
            0 < width,
    ;
    assert((y + 1) * width <= height * width) by (nonlinear_arith)
        requires
            y + 1 <= height,
            0 < width,
    ;
    assert((y + 1) * width == y * width + width) by (nonlinear_arith);
    assert(height * width == width * height) by (nonlinear_arith);
}

proof fn lemma_index_injective(width: int, x: int, y: int, a: int, b: int)
    requires
        0 <= x < width,
        0 <= a < width,
        y * width + x == b * width + a,
    ensures
        x == a && y == b,
{
    assert(y == b) by (nonlinear_arith)
        requires
            0 <= x < width,
            0 <= a < width,
            y * width + x == b * width + a,
    ;
}

proof fn lemma_far(x: int, y: int, center_x: int, center_y: int, radius: int)
    requires
        0 <= radius,
        x - center_x > radius || center_x - x > radius || y - center_y > radius || center_y - y
            > radius,
    ensures
        distance(x, y, center_x, center_y) > radius * radius,
{
    let dx = x - center_x;
    let dy = y - center_y;
    assert(dx * dx >= 0) by (nonlinear_arith);
    assert(dy * dy >= 0) by (nonlinear_arith);
    if dx > radius || -dx > radius {
        assert(dx * dx > radius * radius) by (nonlinear_arith)
            requires
                dx > radius || -dx > radius,
                0 <= radius,
        ;
    } else {
        assert(dy * dy > radius * radius) by (nonlinear_arith)
            requires
                dy > radius || -dy > radius,
                0 <= radius,
        ;
    }
}

/// Paints a disc or a ring, as far as it lies in the picture, and leaves every other pixel as it
/// is.
pub fn paint_circle(icon: &mut Icon, center: (u32, u32), radius: u32, ring: bool)
    requires
        old(icon).complete(),
        radius <= 65_535,
        center.0 + radius <= u32::MAX,
        center.1 + radius <= u32::MAX,
    ensures
        final(icon).complete(),
        final(icon).width == old(icon).width,
        final(icon).height == old(icon).height,
        forall|x: int, y: int| #[trigger]
            old(icon).has(x, y) ==> final(icon).at(x, y) == if painted(
                x,
                y,
                center.0 as int,
                center.1 as int,
                radius as int,
                ring,
            ) {
                ink()
            } else {
                old(icon).at(x, y)
            },
{
    let r: i64 = radius as i64;
    let cx: i64 = center.0 as i64;
    let cy: i64 = center.1 as i64;
    assert(0 <= r * r <= 65_535 * 65_535) by (nonlinear_arith)
        requires
            0 <= r <= 65_535,
    ;
    let outer: i64 = r * r;
    let half: i64 = if r / 2 > 1 {
        r / 2
    } else {
        1
    };
    let inside: i64 = if r > half {
        r - half
    } else {
        0
    };
    assert(0 <= inside * inside <= 65_535 * 65_535) by (nonlinear_arith)
        requires
            0 <= inside <= 65_535,
    ;
    let inner: i64 = inside * inside;
    let width: u32 = icon.width;
    let height: u32 = icon.height;
    let min_x: u32 = center.0.saturating_sub(radius);
    let max_x: u32 = if center.0 + radius < width - 1 {
        center.0 + radius
    } else {
        width - 1
    };
    let min_y: u32 = center.1.saturating_sub(radius);
    let max_y: u32 = if center.1 + radius < height - 1 {
        center.1 + radius
    } else {
        height - 1
    };
    let ghost before = *icon;
    let mut y: u32 = min_y;
    proof {
        assert forall|a: int, b: int| #[trigger] before.has(a, b) && b < y implies !painted(
            a,
            b,
            cx as int,
            cy as int,
            r as int,
            ring,
        ) by {
            lemma_far(a, b, cx as int, cy as int, r as int);
        }
    }
    while y <= max_y
        invariant
            before == *old(icon),
            before.complete(),
            icon.complete(),
            icon.width == width == before.width,
            icon.height == height == before.height,
            r == radius <= 65_535,
            cx == center.0,
            cy == center.1,
            outer == r * r,
            inside == inner_radius(r as int),
            inner == inside * inside,
            min_x == at_least(cx - r, 0),
            min_y == at_least(cy - r, 0),
            max_x == smaller(cx + r, width - 1),
            max_y == smaller(cy + r, height - 1),
            min_y <= y,
            y <= max_y + 1 || y == min_y,
            forall|a: int, b: int| #[trigger]
                before.has(a, b) ==> icon.at(a, b) == if b < y && painted(
                    a,
                    b,
                    cx as int,
                    cy as int,
                    r as int,
                    ring,
                ) {
                    ink()
                } else {
                    before.at(a, b)
                },
        decreases max_y + 1 - y,
    {
        let mut x: u32 = min_x;
        proof {
            assert forall|a: int, b: int| #[trigger] before.has(a, b) && a < x implies !painted(
                a,
                b,
                cx as int,
                cy as int,
                r as int,
                ring,
            ) by {
                lemma_far(a, b, cx as int, cy as int, r as int);
            }
        }
        while x <= max_x
            invariant
                before == *old(icon),
                before.complete(),
                icon.complete(),
                icon.width == width == before.width,
                icon.height == height == before.height,
                r == radius <= 65_535,
                cx == center.0,
                cy == center.1,
                outer == r * r,
                inside == inner_radius(r as int),
                inner == inside * inside,
                min_x == at_least(cx - r, 0),
                min_y == at_least(cy - r, 0),
                max_x == smaller(cx + r, width - 1),
                max_y == smaller(cy + r, height - 1),
                min_y <= y <= max_y,
                min_x <= x,
                x <= max_x + 1 || x == min_x,
                forall|a: int, b: int| #[trigger]
                    before.has(a, b) ==> icon.at(a, b) == if (b < y || (b == y && a < x))
                        && painted(a, b, cx as int, cy as int, r as int, ring) {
                        ink()
                    } else {
                        before.at(a, b)
                    },
            decreases max_x + 1 - x,
        {
            let dx: i64 = x as i64 - cx;
            let dy: i64 = y as i64 - cy;
            assert(0 <= dx * dx <= 65_535 * 65_535) by (nonlinear_arith)
                requires
                    -65_535 <= dx <= 65_535,
            ;
            assert(0 <= dy * dy <= 65_535 * 65_535) by (nonlinear_arith)
                requires
                    -65_535 <= dy <= 65_535,
            ;
            let away: i64 = dx * dx + dy * dy;
            assert(away == distance(x as int, y as int, cx as int, cy as int));
            proof {
                lemma_index(width as int, height as int, x as int, y as int);
            }
            if away <= outer && (!ring || away >= inner) {
                let place: usize = pixel_index(icon, x, y);
                icon.pixels[place] = Pixel { red: 0, green: 0, blue: 0, alpha: 255 };
            }
            proof {
                assert forall|a: int, b: int| #[trigger] before.has(a, b) implies icon.at(a, b)
                    == if (b < y || (b == y && a < x + 1)) && painted(
                    a,
                    b,
                    cx as int,
                    cy as int,
                    r as int,
                    ring,
                ) {
                    ink()
                } else {
                    before.at(a, b)
                } by {
                    lemma_index(width as int, height as int, a, b);
                    if b * width + a == y * width + x {
                        lemma_index_injective(width as int, x as int, y as int, a, b);
                    }
                }
            }
            x = x + 1;
        }
        proof {
            assert forall|a: int, b: int| #[trigger] before.has(a, b) implies icon.at(a, b) == if b
                < y + 1 && painted(a, b, cx as int, cy as int, r as int, ring) {
                ink()
            } else {
                before.at(a, b)
            } by {
                if b == y && a >= x {
                    lemma_far(a, b, cx as int, cy as int, r as int);
                }
            }
        }
        y = y + 1;
    }
    proof {
        assert forall|a: int, b: int| #[trigger] before.has(a, b) implies icon.at(a, b)
            == if painted(a, b, cx as int, cy as int, r as int, ring) {
            ink()
        } else {
            before.at(a, b)
        } by {
            if b >= y {
                lemma_far(a, b, cx as int, cy as int, r as int);
            }
        }
    }
}

fn pixel_index(icon: &Icon, x: u32, y: u32) -> (place: usize)
    requires
        icon.complete(),
        icon.has(x as int, y as int),
    ensures
        place == y * icon.width + x,
        place < icon.pixels@.len(),
{
    proof {
        lemma_index(icon.width as int, icon.height as int, x as int, y as int);
        assert(0 <= y * icon.width) by (nonlinear_arith)
            requires
                0 <= y,
                0 < icon.width,
        ;
    }
    let count: usize = icon.pixels.len();
    y as usize * icon.width as usize + x as usize
}

/// The place is painted for a state, given the sides of the icon.
pub open spec fn badge_painted(state: SyncState, width: int, height: int, x: int, y: int) -> bool {
    let radius = radius_of(width, height);
    let center_x = center_along(width, radius);
    let center_y = center_along(height, radius);
    match state {
        SyncState::Idle => false,
        SyncState::Synced => painted(x, y, center_x, center_y, radius, false),
        SyncState::WaitingForDevice => painted(x, y, center_x, center_y, radius, true),
        SyncState::Syncing => {
            let small = at_least(radius / 2, 1);
            ||| painted(x, y, at_least(center_x - 2 * small, 0), center_y, small, false)
            ||| painted(x, y, center_x + 2 * small, center_y, small, false)
        },
    }
}

/// Paints the badge of a state: a dot when synced, a ring when waiting for a device, two small dots
/// while syncing, and nothing when idle.
pub fn draw_badge(icon: &mut Icon, state: SyncState)
    requires
        old(icon).measurable(),
    ensures
        final(icon).complete(),
        final(icon).width == old(icon).width,
        final(icon).height == old(icon).height,
        forall|x: int, y: int| #[trigger]
            old(icon).has(x, y) ==> final(icon).at(x, y) == if badge_painted(
                state,
                old(icon).width as int,
                old(icon).height as int,
                x,
                y,
            ) {
                ink()
            } else {
                old(icon).at(x, y)
            },
{
    match state {
        SyncState::Idle => {},
        SyncState::Synced => draw_filled_dot(icon),
        SyncState::Syncing => draw_sync_dots(icon),
        SyncState::WaitingForDevice => draw_ring(icon),
    }
}

/// What a picture consists of.
pub open spec fn icon_parts(icon: Option<Icon>) -> Option<(u32, u32, Seq<Pixel>)> {
    match icon {
        Some(picture) => Some((picture.width, picture.height, picture.pixels@)),
        None => None,
    }
}

/// What the `image` crate reads an encoded picture as: its width, its height and its pixels, row by
/// row; or nothing, where it cannot.
pub uninterp spec fn decoded_image(encoded: Seq<u8>) -> Option<(u32, u32, Seq<Pixel>)>;

/// `image::load_from_memory` and `DynamicImage::to_rgba8`. There is a pixel for each place.
#[verifier::external_body]
fn decode_image(encoded: &[u8]) -> (icon: Option<Icon>)
    ensures
        icon_parts(icon) == decoded_image(encoded@),
        icon matches Some(picture) ==> picture.pixels@.len() == picture.width * picture.height,
{
    let picture = image::load_from_memory(encoded).ok()?.to_rgba8();
    Some(Icon {
        width: picture.width(),
        height: picture.height(),
        pixels: picture.pixels()
            .map(|pixel| Pixel { red: pixel[0], green: pixel[1], blue: pixel[2], alpha: pixel[3] })
            .collect(),
    })
}

/// The icon of the tray for a state, drawn upon an encoded picture. There is none where the picture
/// cannot be read, or its badge not be measured.
pub fn status_icon(encoded: &[u8], state: SyncState) -> (icon: Option<Icon>)
    ensures
        match decoded_image(encoded@) {
            None => icon is None,
            Some((width, height, pixels)) => {
                let radius = radius_of(width as int, height as int);
                if 0 < width && 0 < height && radius <= 65_535 && width + radius <= u32::MAX {
                    icon matches Some(drawn) && drawn.complete() && drawn.width == width
                        && drawn.height == height && forall|x: int, y: int|
                        0 <= x < width && 0 <= y < height ==> #[trigger] drawn.at(x, y)
                            == if badge_painted(state, width as int, height as int, x, y) {
                            ink()
                        } else {
                            pixels[y * width + x]
                        }
                } else {
                    icon is None
                }
            },
        },
{
    let mut icon = match decode_image(encoded) {
        None => {
            return None;
        },
        Some(icon) => icon,
    };
    let radius = badge_radius(&icon);
    if icon.width == 0 || icon.height == 0 || radius > 65_535 || icon.width > u32::MAX - radius {
        return None;
    }
    let ghost before = icon;
    draw_badge(&mut icon, state);
    proof {
        assert forall|x: int, y: int| 0 <= x < before.width && 0 <= y < before.height implies
            #[trigger] icon.at(x, y) == if badge_painted(
            state,
            before.width as int,
            before.height as int,
            x,
            y,
        ) {
            ink()
        } else {
            before.pixels@[y * before.width + x]
        } by {
            assert(before.has(x, y));
        }
    }
    Some(icon)
}

/// Paints the dot that stands for a finished sync.
pub fn draw_filled_dot(icon: &mut Icon)
    requires
        old(icon).measurable(),
    ensures
        final(icon).complete(),
        final(icon).width == old(icon).width,
        final(icon).height == old(icon).height,
        forall|x: int, y: int| #[trigger]
            old(icon).has(x, y) ==> final(icon).at(x, y) == if badge_painted(
                SyncState::Synced,
                old(icon).width as int,
                old(icon).height as int,
                x,
                y,
            ) {
                ink()
            } else {
                old(icon).at(x, y)
            },
{
    let radius: u32 = badge_radius(icon);
    let center = badge_center(icon, radius);
    paint_circle(icon, center, radius, false);
}

/// Paints the two small dots that stand for a running sync.
pub fn draw_sync_dots(icon: &mut Icon)
    requires
        old(icon).measurable(),
    ensures
        final(icon).complete(),
        final(icon).width == old(icon).width,
        final(icon).height == old(icon).height,
        forall|x: int, y: int| #[trigger]
            old(icon).has(x, y) ==> final(icon).at(x, y) == if badge_painted(
                SyncState::Syncing,
                old(icon).width as int,
                old(icon).height as int,
                x,
                y,
            ) {
                ink()
            } else {
                old(icon).at(x, y)
            },
{
    let whole: u32 = badge_radius(icon);
    let radius: u32 = if whole / 2 > 1 {
        whole / 2
    } else {
        1
    };
    let (x, y) = badge_center(icon, whole);
    let ghost before = *icon;
    paint_circle(icon, (x.saturating_sub(radius * 2), y), radius, false);
    assert(forall|a: int, b: int| #[trigger] before.has(a, b) ==> icon.has(a, b));
    paint_circle(icon, (x.saturating_add(radius * 2), y), radius, false);
    assert(forall|a: int, b: int| #[trigger] before.has(a, b) ==> icon.has(a, b));
}

/// Paints the ring that stands for waiting.
pub fn draw_ring(icon: &mut Icon)
    requires
        old(icon).measurable(),
    ensures
        final(icon).complete(),
        final(icon).width == old(icon).width,
        final(icon).height == old(icon).height,
        forall|x: int, y: int| #[trigger]
            old(icon).has(x, y) ==> final(icon).at(x, y) == if badge_painted(
                SyncState::WaitingForDevice,
                old(icon).width as int,
                old(icon).height as int,
                x,
                y,
            ) {
                ink()
            } else {
                old(icon).at(x, y)
            },
{
    let radius: u32 = badge_radius(icon);
    let center = badge_center(icon, radius);
    paint_circle(icon, center, radius, true);
}

} // verus!
