use vstd::prelude::*;

verus! {

// Token pairs the server sends, written (category, subcategory).
pub const PLAYER_MOVEMENT: (u8, u8) = (4, 4);

pub const CROUCH: (u8, u8) = (4, 9);

pub const NEW_MAP: (u8, u8) = (5, 2);

pub const MAP_START_TIMER: (u8, u8) = (5, 10);

pub const ENTER_ROOM: (u8, u8) = (5, 21);

pub const ROUND_TIME: (u8, u8) = (5, 22);

pub const TUTORIAL: (u8, u8) = (5, 90);

pub const ROOM_SERVER: (u8, u8) = (7, 1);

pub const ROOM_TYPE: (u8, u8) = (7, 30);

pub const BANNER_LOGIN: (u8, u8) = (16, 9);

pub const PLAYER_IDENTIFICATION: (u8, u8) = (26, 2);

pub const CORRECT_VERSION: (u8, u8) = (26, 3);

pub const LOGIN_RESULT: (u8, u8) = (26, 12);

pub const CAPTCHA: (u8, u8) = (26, 20);

pub const LOGIN_SOURIS: (u8, u8) = (26, 33);

pub const PING: (u8, u8) = (28, 6);

pub const IMAGE_LOGIN: (u8, u8) = (100, 99);

pub const PLAYER_LIST: (u8, u8) = (144, 1);

pub const PLAYER_RESPAWN: (u8, u8) = (144, 2);

pub const PLAYER_GET_CHEESE: (u8, u8) = (144, 6);

pub const SET_LANGUAGE: (u8, u8) = (176, 5);

pub const LANGUAGE_LIST: (u8, u8) = (176, 6);

// Token pairs of the legacy nested format, carried inside the (1, 1) frame.
pub const OLD_ANCHORS: (u8, u8) = (5, 7);

pub const OLD_PLAYER_DIED: (u8, u8) = (8, 5);

pub const OLD_PLAYER_DISCONNECT: (u8, u8) = (8, 7);

pub const OLD_SYNC: (u8, u8) = (8, 21);

pub const OLD_LOGIN: (u8, u8) = (26, 8);

} // verus!
