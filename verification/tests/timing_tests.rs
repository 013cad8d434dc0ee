use clippy_sync::counters::{read_counter, CounterError, JsonNumber};
use clippy_sync::schedule::{RetrySchedule, Visibility};
use clippy_sync::status::{
    draw_badge, draw_filled_dot, draw_ring, get, status_icon, tooltip, Icon, Pixel, SyncState, SyncStatus,
};
use clippy_sync::tunnel::{check_tunnel_token, retry_delay, TunnelError, TunnelRunner};

#[test]
fn refuses_unknown_environment_names() {
    assert_eq!(
        TunnelRunner::new("development").err(),
        Some(TunnelError::InvalidEnvironment)
    );
    assert_eq!(
        TunnelRunner::new("staging").unwrap().token_account(),
        "cloudflare-tunnel:staging"
    );
}

#[test]
fn reconnect_delay_caps_at_sixteen_seconds() {
    assert_eq!(
        (0..8).map(retry_delay).collect::<Vec<_>>(),
        vec![1, 2, 4, 8, 16, 16, 16, 16]
    );
}

#[test]
fn tunnel_tokens_stand_on_one_line() {
    assert_eq!(check_tunnel_token(b"token"), Ok(()));
    assert_eq!(check_tunnel_token(b""), Err(TunnelError::InvalidToken));
    assert_eq!(check_tunnel_token(b"a\nb"), Err(TunnelError::InvalidToken));
    assert_eq!(check_tunnel_token(b"a\r"), Err(TunnelError::InvalidToken));
}

#[test]
fn foreground_burst_is_bounded() {
    let mut schedule = RetrySchedule::new(Visibility::Foreground);
    assert_eq!(schedule.next_delay(500, false), 0);
    assert_eq!(schedule.next_delay(500, false), 250);
    assert_eq!(schedule.next_delay(500, false), 1_000);
    assert_eq!(schedule.next_delay(500, false), 3_000);
    assert_eq!(schedule.next_delay(500, false), 1_000);
}

#[test]
fn hidden_backoff_caps_at_fifteen_minutes() {
    let mut schedule = RetrySchedule::new(Visibility::Hidden);
    for _ in 0..20 {
        schedule.failed();
    }
    assert_eq!(schedule.next_delay(500, false), 900_000);
    assert_eq!(schedule.next_delay(0, false), 720_000);
    assert_eq!(schedule.next_delay(1_000, false), 1_080_000);
}

#[test]
fn local_ops_always_wake_immediately() {
    let mut schedule = RetrySchedule::new(Visibility::Hidden);
    schedule.failed();
    assert_eq!(schedule.next_delay(500, true), 0);
}

#[test]
fn showing_the_window_starts_the_burst_over() {
    let mut schedule = RetrySchedule::new(Visibility::Foreground);
    schedule.failed();
    schedule.failed();
    assert_eq!(schedule.next_delay(500, false), 4_000);
    schedule.succeeded();
    assert_eq!(schedule.next_delay(2_000, false), 1_200);
    schedule.hidden();
    assert_eq!(schedule.next_delay(500, false), 30_000);
    schedule.shown();
    assert_eq!(schedule.next_delay(500, false), 0);
}

#[test]
fn accepts_convex_json_numbers() {
    assert_eq!(
        read_counter(JsonNumber::Fraction {
            negative: false,
            whole: Some(88),
            exact: true,
        }),
        Ok(88)
    );
    assert_eq!(read_counter(JsonNumber::Unsigned(88)), Ok(88));
}

#[test]
fn rejects_invalid_counters() {
    assert!(read_counter(JsonNumber::Fraction {
        negative: true,
        whole: Some(1),
        exact: true,
    })
    .is_err());
    assert!(read_counter(JsonNumber::Fraction {
        negative: false,
        whole: Some(1),
        exact: false,
    })
    .is_err());
    assert_eq!(
        read_counter(JsonNumber::Signed(-1)),
        Err(CounterError::Negative)
    );
    assert_eq!(
        read_counter(JsonNumber::Unsigned(1 << 53)),
        Err(CounterError::TooLarge)
    );
    assert_eq!(
        read_counter(JsonNumber::Fraction {
            negative: false,
            whole: None,
            exact: true,
        }),
        Err(CounterError::NotAnInteger)
    );
}

fn blank(width: u32, height: u32) -> Icon {
    Icon {
        width,
        height,
        pixels: vec![
            Pixel {
                red: 1,
                green: 2,
                blue: 3,
                alpha: 0
            };
            (width * height) as usize
        ],
    }
}

#[test]
fn status_variants_change_the_template_mask() {
    let base = blank(44, 44);
    let mut synced = base.clone();
    draw_filled_dot(&mut synced);
    let mut waiting = base.clone();
    draw_ring(&mut waiting);
    assert_ne!(base, synced);
    assert_ne!(synced, waiting);
}

#[test]
fn badges_sit_in_the_lower_right_corner() {
    let mut icon = blank(18, 18);
    draw_badge(&mut icon, SyncState::Synced);
    let ink = Pixel {
        red: 0,
        green: 0,
        blue: 0,
        alpha: 255,
    };
    assert_eq!(icon.pixels[15 * 18 + 15], ink);
    assert_eq!(icon.pixels[15 * 18 + 17], ink);
    assert_ne!(icon.pixels[17 * 18 + 17], ink);
    assert_eq!(icon.pixels.iter().filter(|pixel| **pixel == ink).count(), 13);
    let mut idle = blank(18, 18);
    draw_badge(&mut idle, SyncState::Idle);
    assert_eq!(idle, blank(18, 18));
    let mut running = blank(18, 18);
    draw_badge(&mut running, SyncState::Syncing);
    assert_eq!(running.pixels[15 * 18 + 13], ink);
    assert_eq!(running.pixels[15 * 18 + 17], ink);
    assert_ne!(running.pixels[15 * 18 + 15], ink);
}

#[test]
fn the_icon_of_the_tray_is_drawn_upon_a_picture() {
    let picture = image::RgbaImage::from_fn(18, 9, |x, y| image::Rgba([x as u8, y as u8, 7, 9]));
    let mut encoded = std::io::Cursor::new(Vec::new());
    picture.write_to(&mut encoded, image::ImageFormat::Png).unwrap();
    let idle = status_icon(encoded.get_ref(), SyncState::Idle).unwrap();
    assert_eq!((idle.width, idle.height, idle.pixels.len()), (18, 9, 162));
    assert_eq!(
        idle.pixels[2 * 18 + 5],
        Pixel { red: 5, green: 2, blue: 7, alpha: 9 }
    );
    let mut drawn = idle.clone();
    draw_badge(&mut drawn, SyncState::Synced);
    assert_eq!(status_icon(encoded.get_ref(), SyncState::Synced), Some(drawn));
    assert_eq!(status_icon(b"no picture", SyncState::Synced), None);
}

#[test]
fn the_tray_changes_only_with_the_state() {
    let mut status = SyncStatus::default();
    assert_eq!(get(&status), SyncState::Idle);
    assert!(!clippy_sync::status::set(&mut status, SyncState::Idle));
    assert!(clippy_sync::status::set(&mut status, SyncState::Syncing));
    assert_eq!(get(&status), SyncState::Syncing);
    assert_eq!(tooltip(SyncState::Synced), "Clippy — synced");
}
