# Jiji

A light Discord client meant to stay in the background while chatting: an
egui window, and a Discord bot (through serenity) that reads and writes
messages for it.

- `src/` is the verified library: guilds, channels and messages and how they
  change (`discord_structure`), the client state that packets from the bot
  update and the choices of the user (`client`), what the bot sends for what
  Discord tells it (`bot`), the packets (`postman`), the saved state
  (`state`), and small text readers (`text`, `time`).
- `app/` is the program around it: the window, the bot's connection to
  Discord, notifications, and the save file.
- `tests/` runs the library on concrete values.
