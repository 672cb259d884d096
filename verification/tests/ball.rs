use game_five_balls::ball::{Ball, BallColor};

#[test]
fn ball_new_keeps_id_and_colour() {
    let ball = Ball::new(7, BallColor::Green);
    assert_eq!(ball.id, 7);
    assert_eq!(ball.color, BallColor::Green);
}

#[test]
fn from_index_walks_the_palette() {
    assert_eq!(BallColor::from_index(0), BallColor::Red);
    assert_eq!(BallColor::from_index(1), BallColor::Blue);
    assert_eq!(BallColor::from_index(2), BallColor::Yellow);
    assert_eq!(BallColor::from_index(3), BallColor::Green);
    assert_eq!(BallColor::from_index(4), BallColor::Brown);
}

#[test]
fn random_color_stays_in_the_palette() {
    let palette = [
        BallColor::Red,
        BallColor::Blue,
        BallColor::Yellow,
        BallColor::Green,
        BallColor::Brown,
    ];
    let mut seen = [false; 5];
    for _ in 0..2000 {
        let color = BallColor::random_color();
        let at = palette.iter().position(|c| *c == color).unwrap();
        seen[at] = true;
    }
    assert!(seen.iter().all(|s| *s));
}
